//! A fixed-size set of component bits: four 64-bit words.

use vstd::prelude::*;

use crate::bits::{
    bits_of, lemma_popcount_all_le, lemma_words_clear, lemma_words_contain, lemma_words_disjoint,
    lemma_words_empty, lemma_words_set, popcount, popcount_all, u64_count_ones, words_contain,
    words_disjoint,
};

verus! {

/// The number of words of a signature.
pub const WORD_COUNT: usize = 4;

/// A set of bits, similar to `Vec<bool>` but more efficient with memory.
#[derive(Debug, Clone, Hash, PartialEq, Eq)]
pub struct Signature {
    bits: [u64; 4],
}

impl Signature {
    /// The words of the signature.
    pub closed spec fn words(&self) -> Seq<u64> {
        self.bits@
    }

    /// The set bits.
    pub open spec fn view(&self) -> Set<int> {
        bits_of(self.words())
    }

    /// Creates a new, empty bitset.
    pub fn new() -> (r: Signature)
        ensures
            r@ == Set::<int>::empty(),
            r.words() == seq![0u64, 0u64, 0u64, 0u64],
    {
        let r = Signature { bits: [0u64, 0u64, 0u64, 0u64] };
        assert(r.words() =~= seq![0u64, 0u64, 0u64, 0u64]);
        proof {
            lemma_words_empty(r.words());
        }
        r
    }

    /// Whether this bitset is empty: all bits are 0.
    pub fn is_empty(&self) -> (r: bool)
        ensures
            r == (self@ == Set::<int>::empty()),
    {
        proof {
            lemma_words_empty(self.words());
        }
        let mut i: usize = 0;
        while i < WORD_COUNT
            invariant
                i <= WORD_COUNT,
                self.words().len() == WORD_COUNT,
                forall|k: int| 0 <= k < i ==> #[trigger] self.words()[k] == 0,
            decreases WORD_COUNT - i,
        {
            if self.bits[i] != 0 {
                assert(self.words()[i as int] != 0);
                proof {
                    lemma_words_empty(self.words());
                }
                return false;
            }
            i += 1;
        }
        true
    }

    /// Sets a bit to 1.
    pub fn set(&mut self, index: usize)
        requires
            index < 64 * WORD_COUNT,
        ensures
            final(self)@ == old(self)@.insert(index as int),
    {
        let word = index / 64;
        let bit = index % 64;
        let w = self.bits[word] | (1u64 << (bit as u64));
        proof {
            lemma_words_set(self.words(), index as int);
        }
        self.bits[word] = w;
    }

    /// Sets a bit to 0.
    pub fn unset(&mut self, index: usize)
        requires
            index < 64 * WORD_COUNT,
        ensures
            final(self)@ == old(self)@.remove(index as int),
    {
        let word = index / 64;
        let bit = index % 64;
        let w = self.bits[word] & !(1u64 << (bit as u64));
        proof {
            lemma_words_clear(self.words(), index as int);
        }
        self.bits[word] = w;
    }

    /// Counts the amount of bits set to 1 in this bitset.
    pub fn count_ones(&self) -> (r: u32)
        ensures
            r == popcount_all(self.words()),
    {
        let mut total: u32 = 0;
        let mut i: usize = 0;
        while i < WORD_COUNT
            invariant
                i <= WORD_COUNT,
                self.words().len() == WORD_COUNT,
                total == popcount_all(self.words().take(i as int)),
            decreases WORD_COUNT - i,
        {
            proof {
                assert(self.words().take(i as int + 1).drop_last() =~= self.words().take(i as int));
                lemma_popcount_all_le(self.words().take(i as int + 1));
            }
            total = total + u64_count_ones(self.bits[i]);
            i += 1;
        }
        assert(self.words().take(WORD_COUNT as int) =~= self.words());
        total
    }

    /// Whether `other` is a subset of `self`.
    pub fn contains(&self, other: &Signature) -> (r: bool)
        ensures
            r == other@.subset_of(self@),
    {
        proof {
            lemma_words_contain(self.words(), other.words());
        }
        let mut i: usize = 0;
        while i < WORD_COUNT
            invariant
                i <= WORD_COUNT,
                self.words().len() == WORD_COUNT,
                other.words().len() == WORD_COUNT,
                forall|k: int| 0 <= k < i ==> self.words()[k] & #[trigger] other.words()[k] == other.words()[k],
            decreases WORD_COUNT - i,
        {
            if self.bits[i] & other.bits[i] != other.bits[i] {
                assert(self.words()[i as int] & other.words()[i as int] != other.words()[i as int]);
                assert(!words_contain(self.words(), other.words()));
                proof {
                    lemma_words_contain(self.words(), other.words());
                }
                return false;
            }
            i += 1;
        }
        true
    }

    /// Whether `self` and `other` are disjoint: no bit is set in both.
    pub fn is_disjoint(&self, other: &Signature) -> (r: bool)
        ensures
            r == self@.disjoint(other@),
    {
        proof {
            lemma_words_disjoint(self.words(), other.words());
        }
        let mut i: usize = 0;
        while i < WORD_COUNT
            invariant
                i <= WORD_COUNT,
                self.words().len() == WORD_COUNT,
                other.words().len() == WORD_COUNT,
                forall|k: int| 0 <= k < i ==> #[trigger] self.words()[k] & other.words()[k] == 0,
            decreases WORD_COUNT - i,
        {
            if self.bits[i] & other.bits[i] != 0 {
                assert(self.words()[i as int] & other.words()[i as int] != 0);
                assert(!words_disjoint(self.words(), other.words()));
                proof {
                    lemma_words_disjoint(self.words(), other.words());
                }
                return false;
            }
            i += 1;
        }
        true
    }
}

impl Default for Signature {
    fn default() -> (r: Signature)
        ensures
            r@ == Set::<int>::empty(),
    {
        Signature::new()
    }
}

} // verus!

//! A growable set of bits.

use vstd::prelude::*;

use crate::bits::{
    bits_of, lemma_popcount_all_le, lemma_words_beyond, lemma_words_clear, lemma_words_contain,
    lemma_words_disjoint, lemma_words_set, lemma_words_zero_extend, popcount_all, u64_count_ones,
    words_contain, words_disjoint,
};
use crate::word_vec::{
    word_list, words_get, words_is_empty, words_len, words_new, words_resize, words_set,
    words_with_capacity, Words,
};

verus! {

/// A growable set of bits, stored in 64-bit words (four of them inline).
#[derive(Debug, Hash, PartialEq, Eq)]
pub struct BitSet {
    bits: Words,
}

impl BitSet {
    /// The words of the set.
    pub closed spec fn words(&self) -> Seq<u64> {
        word_list(self.bits)
    }

    /// The set bits.
    pub open spec fn view(&self) -> Set<int> {
        bits_of(self.words())
    }

    /// Creates an empty set without words.
    pub fn new() -> (r: BitSet)
        ensures
            r.words() == Seq::<u64>::empty(),
            r@ == Set::<int>::empty(),
    {
        let r = BitSet { bits: words_new() };
        assert(r@ =~= Set::<int>::empty());
        r
    }

    /// Returns the amount of words in this bitset.
    pub fn word_len(&self) -> (r: usize)
        ensures
            r == self.words().len(),
    {
        words_len(&self.bits)
    }

    /// Creates an empty set with room for `cap` words.
    pub fn with_capacity(cap: usize) -> (r: BitSet)
        requires
            cap <= usize::MAX / 16,
        ensures
            r.words() == Seq::<u64>::empty(),
            r@ == Set::<int>::empty(),
    {
        let r = BitSet { bits: words_with_capacity(cap) };
        assert(r@ =~= Set::<int>::empty());
        r
    }

    /// Whether the set has no words.
    pub fn is_empty(&self) -> (r: bool)
        ensures
            r == (self.words().len() == 0),
            r ==> self@ == Set::<int>::empty(),
    {
        let r = words_is_empty(&self.bits);
        assert(r ==> self@ =~= Set::<int>::empty());
        r
    }

    /// Sets bit `index`, adding words as needed.
    pub fn set(&mut self, index: usize)
        ensures
            final(self)@ == old(self)@.insert(index as int),
            final(self).words().len() == if index / 64 < old(self).words().len() {
                old(self).words().len() as int
            } else {
                index / 64 + 1
            },
    {
        let word = index / 64;
        if words_len(&self.bits) <= word {
            let ghost before = self.words();
            words_resize(&mut self.bits, word + 1, 0);
            proof {
                assert(self.words().subrange(0, before.len() as int) =~= before);
                lemma_words_zero_extend(before, self.words());
            }
        }
        let bit = index % 64;
        let w = words_get(&self.bits, word) | (1u64 << (bit as u64));
        proof {
            lemma_words_set(self.words(), index as int);
        }
        words_set(&mut self.bits, word, w);
    }

    /// Clears bit `index`. A bit beyond the words is clear already.
    pub fn unset(&mut self, index: usize)
        ensures
            final(self)@ == old(self)@.remove(index as int),
            final(self).words().len() == old(self).words().len(),
    {
        let word = index / 64;
        if words_len(&self.bits) <= word {
            proof {
                lemma_words_beyond(self.words(), index as int);
                assert(self@ =~= self@.remove(index as int));
            }
            return;
        }
        let bit = index % 64;
        let w = words_get(&self.bits, word) & !(1u64 << (bit as u64));
        proof {
            lemma_words_clear(self.words(), index as int);
        }
        words_set(&mut self.bits, word, w);
    }

    /// The number of set bits.
    pub fn ones(&self) -> (r: u32)
        requires
            popcount_all(self.words()) <= u32::MAX,
        ensures
            r == popcount_all(self.words()),
    {
        let n = words_len(&self.bits);
        let mut total: u32 = 0;
        let mut i: usize = 0;
        while i < n
            invariant
                i <= n,
                n == self.words().len(),
                popcount_all(self.words()) <= u32::MAX,
                total == popcount_all(self.words().take(i as int)),
            decreases n - i,
        {
            proof {
                assert(self.words().take(i as int + 1).drop_last() =~= self.words().take(i as int));
                lemma_popcount_monotone(self.words(), i as int + 1);
            }
            total = total + u64_count_ones(words_get(&self.bits, i));
            i += 1;
        }
        assert(self.words().take(n as int) =~= self.words());
        total
    }

    /// Whether `other` is a subset of `self`.
    pub fn is_subset(&self, other: &BitSet) -> (r: bool)
        ensures
            r == other@.subset_of(self@),
    {
        let n = words_len(&self.bits);
        let m = words_len(&other.bits);
        if m > n {
            let mut k: usize = n;
            while k < m
                invariant
                    n <= k <= m,
                    n == self.words().len(),
                    m == other.words().len(),
                    forall|j: int| n <= j < k ==> #[trigger] other.words()[j] == 0,
                decreases m - k,
            {
                if words_get(&other.bits, k) != 0 {
                    proof {
                        assert(!words_contain(self.words(), other.words()));
                        lemma_words_contain(self.words(), other.words());
                    }
                    return false;
                }
                k += 1;
            }
        }
        let mut i: usize = 0;
        while i < n && i < m
            invariant
                i <= n,
                n == self.words().len(),
                m == other.words().len(),
                forall|j: int| n <= j < m ==> #[trigger] other.words()[j] == 0,
                forall|j: int|
                    0 <= j < i && j < m ==> self.words()[j] & #[trigger] other.words()[j]
                        == other.words()[j],
            decreases n - i,
        {
            let a = words_get(&self.bits, i);
            let b = words_get(&other.bits, i);
            if a & b != b {
                proof {
                    assert(!words_contain(self.words(), other.words()));
                    lemma_words_contain(self.words(), other.words());
                }
                return false;
            }
            i += 1;
        }
        proof {
            assert(words_contain(self.words(), other.words()));
            lemma_words_contain(self.words(), other.words());
        }
        true
    }

    /// Whether `self` and `other` are disjoint: no bit is set in both.
    pub fn is_disjoint(&self, other: &BitSet) -> (r: bool)
        ensures
            r == self@.disjoint(other@),
    {
        let n = words_len(&self.bits);
        let m = words_len(&other.bits);
        let mut i: usize = 0;
        while i < n && i < m
            invariant
                n == self.words().len(),
                m == other.words().len(),
                forall|j: int|
                    0 <= j < i && j < n && j < m ==> #[trigger] self.words()[j] & other.words()[j] == 0,
            decreases n - i,
        {
            let a = words_get(&self.bits, i);
            let b = words_get(&other.bits, i);
            if a & b != 0 {
                proof {
                    assert(!words_disjoint(self.words(), other.words()));
                    lemma_words_disjoint(self.words(), other.words());
                }
                return false;
            }
            i += 1;
        }
        proof {
            assert(words_disjoint(self.words(), other.words()));
            lemma_words_disjoint(self.words(), other.words());
        }
        true
    }
}

impl Clone for BitSet {
    /// A copy with the same words.
    fn clone(&self) -> (r: BitSet)
        ensures
            r.words() == self.words(),
    {
        BitSet { bits: self.bits.clone() }
    }
}

impl Default for BitSet {
    fn default() -> (r: BitSet)
        ensures
            r.words() == Seq::<u64>::empty(),
    {
        BitSet::new()
    }
}

/// The count over a prefix of the words never exceeds the count over all of them.
pub proof fn lemma_popcount_monotone(ws: Seq<u64>, i: int)
    requires
        0 <= i <= ws.len(),
    ensures
        popcount_all(ws.take(i)) <= popcount_all(ws),
    decreases ws.len(),
{
    if i == ws.len() {
        assert(ws.take(i) =~= ws);
    } else {
        assert(ws.drop_last().take(i) =~= ws.take(i));
        lemma_popcount_monotone(ws.drop_last(), i);
    }
}

} // verus!

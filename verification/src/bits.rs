//! Bits of `u64` words and of sequences of words.

use vstd::prelude::*;

verus! {

/// Whether bit `b` of `w` is set.
pub open spec fn word_bit(w: u64, b: u64) -> bool {
    b < 64 && (w >> b) & 1u64 == 1u64
}

/// Whether bit `i` of the word sequence is set: bit `i % 64` of word `i / 64`.
pub open spec fn words_bit(ws: Seq<u64>, i: int) -> bool {
    0 <= i && i / 64 < ws.len() && word_bit(ws[i / 64], (i % 64) as u64)
}

/// The set of bit positions that are set.
pub open spec fn bits_of(ws: Seq<u64>) -> Set<int> {
    Set::new(|i: int| words_bit(ws, i))
}

/// The number of set bits among the lowest `k` bits of `w`.
pub open spec fn ones_below(w: u64, k: nat) -> nat
    decreases k,
{
    if k == 0 {
        0
    } else {
        ones_below(w, (k - 1) as nat) + if word_bit(w, (k - 1) as u64) {
            1nat
        } else {
            0nat
        }
    }
}

/// The number of set bits of `w`.
pub open spec fn popcount(w: u64) -> nat {
    ones_below(w, 64)
}

/// The number of set bits of all words.
pub open spec fn popcount_all(ws: Seq<u64>) -> nat
    decreases ws.len(),
{
    if ws.len() == 0 {
        0
    } else {
        popcount_all(ws.drop_last()) + popcount(ws.last())
    }
}

pub proof fn lemma_ones_below_le(w: u64, k: nat)
    ensures
        ones_below(w, k) <= k,
    decreases k,
{
    if k > 0 {
        lemma_ones_below_le(w, (k - 1) as nat);
    }
}

pub proof fn lemma_popcount_all_le(ws: Seq<u64>)
    ensures
        popcount_all(ws) <= 64 * ws.len(),
    decreases ws.len(),
{
    if ws.len() > 0 {
        lemma_popcount_all_le(ws.drop_last());
        lemma_ones_below_le(ws.last(), 64);
    }
}

/// The number of ones in the binary representation of `x`, counted bit by bit.
pub(crate) fn u64_count_ones(x: u64) -> (r: u32)
    ensures
        r == popcount(x),
{
    let mut count: u32 = 0;
    let mut b: u64 = 0;
    while b < 64
        invariant
            b <= 64,
            count == ones_below(x, b as nat),
        decreases 64 - b,
    {
        proof {
            lemma_ones_below_le(x, b as nat);
        }
        if (x >> b) & 1u64 == 1u64 {
            count = count + 1;
        }
        b = b + 1;
    }
    count
}

/// Setting bit `b` sets that bit and leaves the others.
pub proof fn lemma_set_bit(w: u64, b: u64, j: u64)
    requires
        b < 64,
        j < 64,
    ensures
        word_bit(w | (1u64 << b), j) == (j == b || word_bit(w, j)),
{
    assert(((w | (1u64 << b)) >> j) & 1u64 == 1u64 <==> (j == b || (w >> j) & 1u64 == 1u64))
        by (bit_vector)
        requires
            b < 64,
            j < 64,
    ;
}

/// Clearing bit `b` clears that bit and leaves the others.
pub proof fn lemma_clear_bit(w: u64, b: u64, j: u64)
    requires
        b < 64,
        j < 64,
    ensures
        word_bit(w & !(1u64 << b), j) == (j != b && word_bit(w, j)),
{
    assert(((w & !(1u64 << b)) >> j) & 1u64 == 1u64 <==> (j != b && (w >> j) & 1u64 == 1u64))
        by (bit_vector)
        requires
            b < 64,
            j < 64,
    ;
}

proof fn lemma_bit_and(a: u64, b: u64, j: u64)
    requires
        j < 64,
    ensures
        word_bit(a & b, j) == (word_bit(a, j) && word_bit(b, j)),
{
    assert(((a & b) >> j) & 1u64 == 1u64 <==> ((a >> j) & 1u64 == 1u64 && (b >> j) & 1u64 == 1u64))
        by (bit_vector)
        requires
            j < 64,
    ;
}

proof fn lemma_bit_and_not(a: u64, b: u64, j: u64)
    requires
        j < 64,
    ensures
        word_bit(b & !a, j) == (!word_bit(a, j) && word_bit(b, j)),
{
    assert(((b & !a) >> j) & 1u64 == 1u64 <==> ((a >> j) & 1u64 != 1u64 && (b >> j) & 1u64 == 1u64))
        by (bit_vector)
        requires
            j < 64,
    ;
}

/// A word without set bits is zero.
pub proof fn lemma_no_bits_zero(x: u64)
    requires
        forall|j: u64| j < 64 ==> !#[trigger] word_bit(x, j),
    ensures
        x == 0,
{
    assert(!word_bit(x, 0u64));
    assert(!word_bit(x, 1u64));
    assert(!word_bit(x, 2u64));
    assert(!word_bit(x, 3u64));
    assert(!word_bit(x, 4u64));
    assert(!word_bit(x, 5u64));
    assert(!word_bit(x, 6u64));
    assert(!word_bit(x, 7u64));
    assert(!word_bit(x, 8u64));
    assert(!word_bit(x, 9u64));
    assert(!word_bit(x, 10u64));
    assert(!word_bit(x, 11u64));
    assert(!word_bit(x, 12u64));
    assert(!word_bit(x, 13u64));
    assert(!word_bit(x, 14u64));
    assert(!word_bit(x, 15u64));
    assert(!word_bit(x, 16u64));
    assert(!word_bit(x, 17u64));
    assert(!word_bit(x, 18u64));
    assert(!word_bit(x, 19u64));
    assert(!word_bit(x, 20u64));
    assert(!word_bit(x, 21u64));
    assert(!word_bit(x, 22u64));
    assert(!word_bit(x, 23u64));
    assert(!word_bit(x, 24u64));
    assert(!word_bit(x, 25u64));
    assert(!word_bit(x, 26u64));
    assert(!word_bit(x, 27u64));
    assert(!word_bit(x, 28u64));
    assert(!word_bit(x, 29u64));
    assert(!word_bit(x, 30u64));
    assert(!word_bit(x, 31u64));
    assert(!word_bit(x, 32u64));
    assert(!word_bit(x, 33u64));
    assert(!word_bit(x, 34u64));
    assert(!word_bit(x, 35u64));
    assert(!word_bit(x, 36u64));
    assert(!word_bit(x, 37u64));
    assert(!word_bit(x, 38u64));
    assert(!word_bit(x, 39u64));
    assert(!word_bit(x, 40u64));
    assert(!word_bit(x, 41u64));
    assert(!word_bit(x, 42u64));
    assert(!word_bit(x, 43u64));
    assert(!word_bit(x, 44u64));
    assert(!word_bit(x, 45u64));
    assert(!word_bit(x, 46u64));
    assert(!word_bit(x, 47u64));
    assert(!word_bit(x, 48u64));
    assert(!word_bit(x, 49u64));
    assert(!word_bit(x, 50u64));
    assert(!word_bit(x, 51u64));
    assert(!word_bit(x, 52u64));
    assert(!word_bit(x, 53u64));
    assert(!word_bit(x, 54u64));
    assert(!word_bit(x, 55u64));
    assert(!word_bit(x, 56u64));
    assert(!word_bit(x, 57u64));
    assert(!word_bit(x, 58u64));
    assert(!word_bit(x, 59u64));
    assert(!word_bit(x, 60u64));
    assert(!word_bit(x, 61u64));
    assert(!word_bit(x, 62u64));
    assert(!word_bit(x, 63u64));
    assert(x == 0u64) by (bit_vector)
        requires
            (x >> 0u64) & 1u64 != 1u64,
            (x >> 1u64) & 1u64 != 1u64,
            (x >> 2u64) & 1u64 != 1u64,
            (x >> 3u64) & 1u64 != 1u64,
            (x >> 4u64) & 1u64 != 1u64,
            (x >> 5u64) & 1u64 != 1u64,
            (x >> 6u64) & 1u64 != 1u64,
            (x >> 7u64) & 1u64 != 1u64,
            (x >> 8u64) & 1u64 != 1u64,
            (x >> 9u64) & 1u64 != 1u64,
            (x >> 10u64) & 1u64 != 1u64,
            (x >> 11u64) & 1u64 != 1u64,
            (x >> 12u64) & 1u64 != 1u64,
            (x >> 13u64) & 1u64 != 1u64,
            (x >> 14u64) & 1u64 != 1u64,
            (x >> 15u64) & 1u64 != 1u64,
            (x >> 16u64) & 1u64 != 1u64,
            (x >> 17u64) & 1u64 != 1u64,
            (x >> 18u64) & 1u64 != 1u64,
            (x >> 19u64) & 1u64 != 1u64,
            (x >> 20u64) & 1u64 != 1u64,
            (x >> 21u64) & 1u64 != 1u64,
            (x >> 22u64) & 1u64 != 1u64,
            (x >> 23u64) & 1u64 != 1u64,
            (x >> 24u64) & 1u64 != 1u64,
            (x >> 25u64) & 1u64 != 1u64,
            (x >> 26u64) & 1u64 != 1u64,
            (x >> 27u64) & 1u64 != 1u64,
            (x >> 28u64) & 1u64 != 1u64,
            (x >> 29u64) & 1u64 != 1u64,
            (x >> 30u64) & 1u64 != 1u64,
            (x >> 31u64) & 1u64 != 1u64,
            (x >> 32u64) & 1u64 != 1u64,
            (x >> 33u64) & 1u64 != 1u64,
            (x >> 34u64) & 1u64 != 1u64,
            (x >> 35u64) & 1u64 != 1u64,
            (x >> 36u64) & 1u64 != 1u64,
            (x >> 37u64) & 1u64 != 1u64,
            (x >> 38u64) & 1u64 != 1u64,
            (x >> 39u64) & 1u64 != 1u64,
            (x >> 40u64) & 1u64 != 1u64,
            (x >> 41u64) & 1u64 != 1u64,
            (x >> 42u64) & 1u64 != 1u64,
            (x >> 43u64) & 1u64 != 1u64,
            (x >> 44u64) & 1u64 != 1u64,
            (x >> 45u64) & 1u64 != 1u64,
            (x >> 46u64) & 1u64 != 1u64,
            (x >> 47u64) & 1u64 != 1u64,
            (x >> 48u64) & 1u64 != 1u64,
            (x >> 49u64) & 1u64 != 1u64,
            (x >> 50u64) & 1u64 != 1u64,
            (x >> 51u64) & 1u64 != 1u64,
            (x >> 52u64) & 1u64 != 1u64,
            (x >> 53u64) & 1u64 != 1u64,
            (x >> 54u64) & 1u64 != 1u64,
            (x >> 55u64) & 1u64 != 1u64,
            (x >> 56u64) & 1u64 != 1u64,
            (x >> 57u64) & 1u64 != 1u64,
            (x >> 58u64) & 1u64 != 1u64,
            (x >> 59u64) & 1u64 != 1u64,
            (x >> 60u64) & 1u64 != 1u64,
            (x >> 61u64) & 1u64 != 1u64,
            (x >> 62u64) & 1u64 != 1u64,
            (x >> 63u64) & 1u64 != 1u64,
    ;
}

/// A word is zero exactly when none of its bits is set.
pub proof fn lemma_zero_iff(x: u64)
    ensures
        (x == 0) <==> (forall|j: u64| j < 64 ==> !#[trigger] word_bit(x, j)),
{
    if x == 0 {
        assert forall|j: u64| j < 64 implies !#[trigger] word_bit(x, j) by {
            assert((0u64 >> j) & 1u64 == 0u64) by (bit_vector);
        }
    }
    if forall|j: u64| j < 64 ==> !#[trigger] word_bit(x, j) {
        lemma_no_bits_zero(x);
    }
}

/// `a & b == b` exactly when every bit of `b` is a bit of `a`.
pub proof fn lemma_and_subset(a: u64, b: u64)
    ensures
        (a & b == b) <==> (forall|j: u64| j < 64 && #[trigger] word_bit(b, j) ==> word_bit(a, j)),
{
    if a & b == b {
        assert forall|j: u64| j < 64 && #[trigger] word_bit(b, j) implies word_bit(a, j) by {
            lemma_bit_and(a, b, j);
        }
    }
    if forall|j: u64| j < 64 && #[trigger] word_bit(b, j) ==> word_bit(a, j) {
        assert forall|j: u64| j < 64 implies !#[trigger] word_bit(b & !a, j) by {
            lemma_bit_and_not(a, b, j);
        }
        lemma_no_bits_zero(b & !a);
        assert(a & b == b) by (bit_vector)
            requires
                b & !a == 0u64,
        ;
    }
}

/// `a & b == 0` exactly when `a` and `b` share no bit.
pub proof fn lemma_and_disjoint(a: u64, b: u64)
    ensures
        (a & b == 0) <==> (forall|j: u64| j < 64 ==> !(#[trigger] word_bit(a, j) && word_bit(b, j))),
{
    lemma_zero_iff(a & b);
    if a & b == 0 {
        assert forall|j: u64| j < 64 implies !(#[trigger] word_bit(a, j) && word_bit(b, j)) by {
            lemma_bit_and(a, b, j);
            assert(!word_bit(a & b, j));
        }
    }
    if forall|j: u64| j < 64 ==> !(#[trigger] word_bit(a, j) && word_bit(b, j)) {
        assert forall|j: u64| j < 64 implies !#[trigger] word_bit(a & b, j) by {
            lemma_bit_and(a, b, j);
            assert(!(word_bit(a, j) && word_bit(b, j)));
        }
    }
}

/// Every word of `b` is covered by the word of `a` at the same position (missing words of `a`
/// count as zero).
pub open spec fn words_contain(a: Seq<u64>, b: Seq<u64>) -> bool {
    forall|k: int|
        0 <= k < b.len() ==> if k < a.len() {
            a[k] & #[trigger] b[k] == b[k]
        } else {
            b[k] == 0
        }
}

/// The words at equal positions share no bit.
pub open spec fn words_disjoint(a: Seq<u64>, b: Seq<u64>) -> bool {
    forall|k: int| 0 <= k < a.len() && k < b.len() ==> #[trigger] a[k] & b[k] == 0
}

proof fn lemma_split(i: int)
    requires
        0 <= i,
    ensures
        i == 64 * (i / 64) + i % 64,
        0 <= i % 64 < 64,
{
}

proof fn lemma_join(k: int, j: int)
    requires
        0 <= k,
        0 <= j < 64,
    ensures
        (64 * k + j) / 64 == k,
        (64 * k + j) % 64 == j,
{
}

/// Setting bit `index` of the words adds `index` to their bits.
pub proof fn lemma_words_set(ws: Seq<u64>, index: int)
    requires
        0 <= index,
        index / 64 < ws.len(),
    ensures
        bits_of(ws.update(index / 64, ws[index / 64] | (1u64 << ((index % 64) as u64))))
            == bits_of(ws).insert(index),
{
    let w = index / 64;
    let b = (index % 64) as u64;
    let ws2 = ws.update(w, ws[w] | (1u64 << b));
    lemma_split(index);
    assert forall|i: int| #[trigger] words_bit(ws2, i) == (i == index || words_bit(ws, i)) by {
        if 0 <= i {
            lemma_split(i);
            if i / 64 == w {
                lemma_set_bit(ws[w], b, (i % 64) as u64);
            }
        }
    }
    assert(bits_of(ws2) =~= bits_of(ws).insert(index));
}

/// Clearing bit `index` of the words removes `index` from their bits.
pub proof fn lemma_words_clear(ws: Seq<u64>, index: int)
    requires
        0 <= index,
        index / 64 < ws.len(),
    ensures
        bits_of(ws.update(index / 64, ws[index / 64] & !(1u64 << ((index % 64) as u64))))
            == bits_of(ws).remove(index),
{
    let w = index / 64;
    let b = (index % 64) as u64;
    let ws2 = ws.update(w, ws[w] & !(1u64 << b));
    lemma_split(index);
    assert forall|i: int| #[trigger] words_bit(ws2, i) == (i != index && words_bit(ws, i)) by {
        if 0 <= i {
            lemma_split(i);
            if i / 64 == w {
                lemma_clear_bit(ws[w], b, (i % 64) as u64);
            }
        }
    }
    assert(bits_of(ws2) =~= bits_of(ws).remove(index));
}

/// Bits beyond the last word are clear.
pub proof fn lemma_words_beyond(ws: Seq<u64>, index: int)
    requires
        index / 64 >= ws.len(),
    ensures
        !bits_of(ws).contains(index),
{
}

/// Appending zero words leaves the bits unchanged.
pub proof fn lemma_words_zero_extend(ws: Seq<u64>, longer: Seq<u64>)
    requires
        longer.len() >= ws.len(),
        longer.subrange(0, ws.len() as int) == ws,
        forall|k: int| ws.len() <= k < longer.len() ==> #[trigger] longer[k] == 0,
    ensures
        bits_of(longer) == bits_of(ws),
{
    assert forall|i: int| #[trigger] words_bit(longer, i) == words_bit(ws, i) by {
        if 0 <= i && i / 64 < longer.len() {
            lemma_split(i);
            if i / 64 < ws.len() {
                assert(longer[i / 64] == longer.subrange(0, ws.len() as int)[i / 64]);
            } else {
                lemma_zero_iff(longer[i / 64]);
            }
        }
    }
    assert(bits_of(longer) =~= bits_of(ws));
}

/// The words are all zero exactly when no bit is set.
pub proof fn lemma_words_empty(ws: Seq<u64>)
    ensures
        (forall|k: int| 0 <= k < ws.len() ==> #[trigger] ws[k] == 0) <==> bits_of(ws) == Set::<
            int,
        >::empty(),
{
    if forall|k: int| 0 <= k < ws.len() ==> #[trigger] ws[k] == 0 {
        assert forall|i: int| !#[trigger] words_bit(ws, i) by {
            if 0 <= i && i / 64 < ws.len() {
                lemma_zero_iff(ws[i / 64]);
                lemma_split(i);
            }
        }
        assert(bits_of(ws) =~= Set::<int>::empty());
    }
    if bits_of(ws) == Set::<int>::empty() {
        assert forall|k: int| 0 <= k < ws.len() implies #[trigger] ws[k] == 0 by {
            assert forall|j: u64| j < 64 implies !#[trigger] word_bit(ws[k], j) by {
                lemma_join(k, j as int);
                assert(!bits_of(ws).contains(64 * k + j));
            }
            lemma_no_bits_zero(ws[k]);
        }
    }
}

/// The word-wise containment is containment of the bits.
pub proof fn lemma_words_contain(a: Seq<u64>, b: Seq<u64>)
    ensures
        words_contain(a, b) <==> bits_of(b).subset_of(bits_of(a)),
{
    if words_contain(a, b) {
        assert forall|i: int| bits_of(b).contains(i) implies bits_of(a).contains(i) by {
            lemma_split(i);
            let k = i / 64;
            let j = (i % 64) as u64;
            if k < a.len() {
                lemma_and_subset(a[k], b[k]);
            } else {
                lemma_zero_iff(b[k]);
            }
        }
    }
    if bits_of(b).subset_of(bits_of(a)) {
        assert forall|k: int| 0 <= k < b.len() implies if k < a.len() {
            a[k] & #[trigger] b[k] == b[k]
        } else {
            b[k] == 0
        } by {
            if k < a.len() {
                assert forall|j: u64| j < 64 && #[trigger] word_bit(b[k], j) implies word_bit(a[k], j) by {
                    lemma_join(k, j as int);
                    assert(bits_of(b).contains(64 * k + j));
                }
                lemma_and_subset(a[k], b[k]);
            } else {
                assert forall|j: u64| j < 64 implies !#[trigger] word_bit(b[k], j) by {
                    lemma_join(k, j as int);
                    if word_bit(b[k], j) {
                        assert(bits_of(b).contains(64 * k + j));
                    }
                }
                lemma_no_bits_zero(b[k]);
            }
        }
    }
}

/// The word-wise disjointness is disjointness of the bits.
pub proof fn lemma_words_disjoint(a: Seq<u64>, b: Seq<u64>)
    ensures
        words_disjoint(a, b) <==> bits_of(a).disjoint(bits_of(b)),
{
    if words_disjoint(a, b) {
        assert forall|i: int| !(bits_of(a).contains(i) && bits_of(b).contains(i)) by {
            if bits_of(a).contains(i) && bits_of(b).contains(i) {
                lemma_split(i);
                let k = i / 64;
                lemma_and_disjoint(a[k], b[k]);
                assert(a[k] & b[k] == 0);
            }
        }
    }
    if bits_of(a).disjoint(bits_of(b)) {
        assert forall|k: int| 0 <= k < a.len() && k < b.len() implies #[trigger] a[k] & b[k] == 0 by {
            assert forall|j: u64| j < 64 implies !(#[trigger] word_bit(a[k], j) && word_bit(b[k], j)) by {
                lemma_join(k, j as int);
                assert(!(bits_of(a).contains(64 * k + j) && bits_of(b).contains(64 * k + j)));
            }
            lemma_and_disjoint(a[k], b[k]);
        }
    }
}

} // verus!

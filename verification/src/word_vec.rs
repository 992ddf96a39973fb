//! Word storage in `smallvec::SmallVec<[u64; 4]>`: four words inline, more on the heap.

use vstd::prelude::*;

use smallvec::SmallVec;

verus! {

/// Words held in a `smallvec::SmallVec<[u64; 4]>`, which is kept out of view; `word_list` gives
/// the words.
#[verifier::external_body]
#[derive(Debug, Hash, PartialEq, Eq)]
pub struct Words {
    inner: SmallVec<[u64; 4]>,
}

impl Clone for Words {
    /// Calls `SmallVec::clone`, which copies the words.
    #[verifier::external_body]
    fn clone(&self) -> (r: Words)
        ensures
            word_list(r) == word_list(*self),
    {
        Words { inner: self.inner.clone() }
    }
}

/// The words held, in order.
pub uninterp spec fn word_list(v: Words) -> Seq<u64>;

/// Calls `SmallVec::new`, which constructs an empty vector.
#[verifier::external_body]
pub(crate) fn words_new() -> (r: Words)
    ensures
        word_list(r) == Seq::<u64>::empty(),
{
    Words { inner: SmallVec::new() }
}

/// Calls `SmallVec::with_capacity`, which constructs an empty vector with room for `n` words.
/// It panics when the byte size of `n` words overflows, which `requires` rules out.
#[verifier::external_body]
pub(crate) fn words_with_capacity(n: usize) -> (r: Words)
    requires
        n <= usize::MAX / 16,
    ensures
        word_list(r) == Seq::<u64>::empty(),
{
    Words { inner: SmallVec::with_capacity(n) }
}

/// Calls `SmallVec::len`, the number of words stored.
#[verifier::external_body]
pub(crate) fn words_len(v: &Words) -> (r: usize)
    ensures
        r == word_list(*v).len(),
{
    v.inner.len()
}

/// Calls `SmallVec::is_empty`, whether no word is stored.
#[verifier::external_body]
pub(crate) fn words_is_empty(v: &Words) -> (r: bool)
    ensures
        r == (word_list(*v).len() == 0),
{
    v.inner.is_empty()
}

/// Reads word `i` through `SmallVec`'s `Index`.
#[verifier::external_body]
pub(crate) fn words_get(v: &Words, i: usize) -> (r: u64)
    requires
        i < word_list(*v).len(),
    ensures
        r == word_list(*v)[i as int],
{
    v.inner[i]
}

/// Writes word `i` through `SmallVec`'s `IndexMut`.
#[verifier::external_body]
pub(crate) fn words_set(v: &mut Words, i: usize, x: u64)
    requires
        i < word_list(*old(v)).len(),
    ensures
        word_list(*final(v)) == word_list(*old(v)).update(i as int, x),
{
    v.inner[i] = x;
}

/// Calls `SmallVec::resize`: truncates to `len` words, or appends copies of `value` up to
/// `len` words. Growing panics when the capacity computation overflows, which `requires` rules
/// out.
#[verifier::external_body]
pub(crate) fn words_resize(v: &mut Words, len: usize, value: u64)
    requires
        len <= usize::MAX / 32,
    ensures
        len <= word_list(*old(v)).len() ==> word_list(*final(v)) == word_list(*old(v)).subrange(
            0,
            len as int,
        ),
        len > word_list(*old(v)).len() ==> word_list(*final(v)) == word_list(*old(v)) + Seq::new(
            (len - word_list(*old(v)).len()) as nat,
            |_k: int| value,
        ),
{
    v.inner.resize(len, value);
}

} // verus!

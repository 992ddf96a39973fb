//! A sparse set: values addressed by stable indices, stored densely.

use vstd::prelude::*;

verus! {

/// A stored value together with the index under which it was pushed.
#[derive(Debug, Clone)]
struct Dense<T> {
    pub value: T,
    pub sparse_idx: usize,
}

/// A sparse set.
///
/// `push` hands out the index `sparse.len()` and stores the value at the end of `dense`;
/// `sparse[index]` is the position of the value in `dense`.
#[derive(Debug, Clone)]
pub struct SparseSet<T> {
    dense: Vec<Dense<T>>,
    sparse: Vec<usize>,
    len: usize,
}

impl<T> SparseSet<T> {
    /// The number of stored values.
    pub closed spec fn spec_len(&self) -> nat {
        self.len as nat
    }

    /// The number of indices handed out so far.
    pub closed spec fn spec_sparse_len(&self) -> nat {
        self.sparse@.len()
    }

    /// The position in dense storage recorded for `index`.
    pub closed spec fn slot(&self, index: int) -> int {
        self.sparse@[index] as int
    }

    /// The index under which the value at dense position `k` was pushed.
    pub closed spec fn owner(&self, k: int) -> int {
        self.dense@[k].sparse_idx as int
    }

    /// The value at dense position `k`.
    pub closed spec fn value_at(&self, k: int) -> T {
        self.dense@[k].value
    }

    /// Storage is consistent: `len` counts the dense entries, and every dense entry was pushed
    /// under its own index, which has been handed out.
    pub closed spec fn wf(&self) -> bool {
        &&& self.len == self.dense@.len()
        &&& self.dense@.len() <= self.sparse@.len()
        &&& forall|k: int| 0 <= k < self.dense@.len() ==> #[trigger] self.dense@[k].sparse_idx < self.sparse@.len()
        &&& forall|a: int, b: int|
            0 <= a < self.dense@.len() && 0 <= b < self.dense@.len() && a != b ==> #[trigger] self.dense@[a].sparse_idx
                != #[trigger] self.dense@[b].sparse_idx
    }

    /// Looking `index` up stays within storage: it is out of range, or its recorded position
    /// is within the dense storage.
    pub open spec fn probe_ok(&self, index: int) -> bool {
        index >= self.spec_sparse_len() || (0 <= index && self.slot(index) < self.spec_len())
    }

    /// Whether `index` holds a value: its recorded position is in use and belongs to it.
    pub open spec fn holds(&self, index: int) -> bool {
        &&& 0 <= index < self.spec_sparse_len()
        &&& 0 <= self.slot(index) < self.spec_len()
        &&& self.owner(self.slot(index)) == index
    }

    /// The values by index.
    pub open spec fn view(&self) -> Map<int, T> {
        Map::new(|i: int| self.holds(i), |i: int| self.value_at(self.slot(i)))
    }

    /// Creates an empty set.
    pub fn new() -> (r: SparseSet<T>)
        ensures
            r.wf(),
            r.spec_len() == 0,
            r.spec_sparse_len() == 0,
            r@ == Map::<int, T>::empty(),
    {
        let r = SparseSet { dense: Vec::new(), sparse: Vec::new(), len: 0 };
        assert(r@ =~= Map::<int, T>::empty());
        r
    }

    /// Stores `value` and returns its index.
    pub fn push(&mut self, value: T) -> (index: usize)
        requires
            old(self).wf(),
            old(self).spec_sparse_len() < usize::MAX,
        ensures
            final(self).wf(),
            index == old(self).spec_sparse_len(),
            !old(self)@.contains_key(index as int),
            final(self)@ == old(self)@.insert(index as int, value),
            final(self).spec_len() == old(self).spec_len() + 1,
            final(self).spec_sparse_len() == old(self).spec_sparse_len() + 1,
            final(self).probe_ok(index as int),
            forall|i: int| #[trigger] old(self).probe_ok(i) ==> final(self).probe_ok(i),
            final(self).slot(index as int) == old(self).spec_len(),
            final(self).owner(old(self).spec_len() as int) == index,
            final(self).value_at(old(self).spec_len() as int) == value,
            forall|i: int|
                0 <= i < old(self).spec_sparse_len() ==> #[trigger] final(self).slot(i) == old(self).slot(i),
            forall|k: int|
                0 <= k < old(self).spec_len() ==> #[trigger] final(self).owner(k) == old(self).owner(k)
                    && final(self).value_at(k) == old(self).value_at(k),
    {
        let ghost s0 = *self;
        let dense_idx = self.len;
        self.len = self.len + 1;
        if dense_idx < self.dense.len() {
            self.dense[dense_idx].value = value;
            return self.dense[dense_idx].sparse_idx;
        }
        let sparse_idx = self.sparse.len();
        self.dense.push(Dense { value, sparse_idx });
        self.sparse.push(dense_idx);
        proof {
            assert forall|i: int| #[trigger] self.holds(i) <==> (s0.holds(i) || i == sparse_idx) by {
                if 0 <= i < s0.sparse@.len() {
                    assert(self.sparse@[i] == s0.sparse@[i]);
                    if s0.sparse@[i] < s0.dense@.len() {
                        assert(self.dense@[s0.sparse@[i] as int] == s0.dense@[s0.sparse@[i] as int]);
                    }
                    if s0.sparse@[i] == s0.dense@.len() {
                        assert(self.dense@[s0.sparse@[i] as int].sparse_idx == sparse_idx);
                    }
                }
                if i == sparse_idx {
                    assert(self.sparse@[i] == dense_idx);
                    assert(self.dense@[dense_idx as int].sparse_idx == sparse_idx);
                }
            }
            assert forall|i: int| #[trigger] s0.probe_ok(i) implies self.probe_ok(i) by {
                if 0 <= i < s0.sparse@.len() {
                    assert(self.sparse@[i] == s0.sparse@[i]);
                }
                if i == sparse_idx {
                    assert(self.sparse@[i] == dense_idx);
                }
            }
            assert(self.sparse@[sparse_idx as int] == dense_idx);
            assert forall|k: int| 0 <= k < self.dense@.len() implies #[trigger] self.dense@[k].sparse_idx
                < self.sparse@.len() by {
                if k < s0.dense@.len() {
                    assert(self.dense@[k] == s0.dense@[k]);
                }
            }
            assert forall|a: int, b: int|
                0 <= a < self.dense@.len() && 0 <= b < self.dense@.len() && a != b implies #[trigger] self.dense@[a].sparse_idx
                    != #[trigger] self.dense@[b].sparse_idx by {
                if a < s0.dense@.len() {
                    assert(self.dense@[a] == s0.dense@[a]);
                }
                if b < s0.dense@.len() {
                    assert(self.dense@[b] == s0.dense@[b]);
                }
            }
            assert(self@ =~= s0@.insert(sparse_idx as int, value));
        }
        sparse_idx
    }

    /// Removes the value at `index` and returns it, or `None` if `index` holds no value.
    ///
    /// The last dense entry moves into the freed position and the index that pushed it is
    /// pointed at `index` (so that entry stays reachable only when `index` equals the freed
    /// position).
    pub fn remove(&mut self, index: usize) -> (r: Option<T>)
        requires
            old(self).wf(),
            old(self).probe_ok(index as int),
            old(self).holds(index as int) ==> old(self).slot(index as int) + 1 < old(self).spec_len(),
        ensures
            final(self).wf(),
            !old(self).holds(index as int) ==> r is None && *final(self) == *old(self),
            old(self).holds(index as int) ==> {
                let d = old(self).slot(index as int);
                let last = old(self).spec_len() - 1;
                let s = old(self).owner(last);
                &&& r == Some(old(self)@[index as int])
                &&& final(self).spec_len() == old(self).spec_len() - 1
                &&& final(self).spec_sparse_len() == old(self).spec_sparse_len()
                &&& final(self)@ == if d == index {
                    old(self)@.remove(index as int).insert(s, old(self).value_at(last))
                } else {
                    old(self)@.remove(index as int).remove(s)
                }
                &&& !final(self).holds(index as int)
                &&& final(self).probe_ok(index as int)
                &&& forall|i: int|
                    0 <= i < old(self).spec_sparse_len() ==> #[trigger] final(self).slot(i) == if i == s {
                        index as int
                    } else {
                        old(self).slot(i)
                    }
                &&& forall|k: int|
                    0 <= k < last ==> #[trigger] final(self).owner(k) == (if k == d {
                        old(self).owner(last)
                    } else {
                        old(self).owner(k)
                    }) && final(self).value_at(k) == (if k == d {
                        old(self).value_at(last)
                    } else {
                        old(self).value_at(k)
                    })
            },
    {
        if !self.contains_index(index) {
            return None;
        }
        let ghost s0 = *self;
        self.len = self.len - 1;
        let dense_idx = self.sparse[index];
        let removed = self.dense.swap_remove(dense_idx);
        let sparse_idx = self.dense[dense_idx].sparse_idx;
        self.sparse[sparse_idx] = index;
        proof {
            let n = s0.dense@.len() as int;
            let d = dense_idx as int;
            let s = s0.dense@[n - 1].sparse_idx as int;
            assert(self.dense@[d] == s0.dense@[n - 1]);
            assert(s != index);
            assert forall|a: int, b: int|
                0 <= a < self.dense@.len() && 0 <= b < self.dense@.len() && a != b implies #[trigger] self.dense@[a].sparse_idx
                    != #[trigger] self.dense@[b].sparse_idx by {
                let oa = if a == d { n - 1 } else { a };
                let ob = if b == d { n - 1 } else { b };
                assert(self.dense@[a] == s0.dense@[oa]);
                assert(self.dense@[b] == s0.dense@[ob]);
            }
            assert forall|k: int| 0 <= k < self.dense@.len() implies #[trigger] self.dense@[k].sparse_idx
                < self.sparse@.len() by {
                let ok = if k == d { n - 1 } else { k };
                assert(self.dense@[k] == s0.dense@[ok]);
            }
            assert forall|j: int| #[trigger] self.holds(j) <==> (if j == s {
                index as int == d
            } else {
                j != index && s0.holds(j)
            }) by {
                if 0 <= j < self.sparse@.len() {
                    let e = s0.sparse@[j] as int;
                    if j != s {
                        assert(self.sparse@[j] == s0.sparse@[j]);
                        if 0 <= e < n - 1 && e != d {
                            assert(self.dense@[e] == s0.dense@[e]);
                        }
                        if e == n - 1 && s0.holds(j) {
                            assert(s0.dense@[n - 1].sparse_idx as int == j);
                        }
                    } else {
                        assert(self.sparse@[j] as int == index as int);
                        if index as int != d && index < n - 1 {
                            assert(self.dense@[index as int] == s0.dense@[index as int]);
                            assert(s0.dense@[index as int].sparse_idx != s0.dense@[n - 1].sparse_idx);
                        }
                    }
                }
            }
            assert forall|k: int| 0 <= k < n - 1 implies #[trigger] self.owner(k) == (if k == d {
                s0.owner(n - 1)
            } else {
                s0.owner(k)
            }) && self.value_at(k) == (if k == d {
                s0.value_at(n - 1)
            } else {
                s0.value_at(k)
            }) by {
                if k != d {
                    assert(self.dense@[k] == s0.dense@[k]);
                }
            }
            if d == index {
                assert(self@ =~= s0@.remove(index as int).insert(s, s0.value_at(n - 1)));
            } else {
                assert(self@ =~= s0@.remove(index as int).remove(s));
            }
        }
        Some(removed.value)
    }

    /// The value at `index`, or `None` if `index` holds no value.
    pub fn get(&self, index: usize) -> (r: Option<&T>)
        requires
            self.wf(),
            self.probe_ok(index as int),
        ensures
            r == if self.holds(index as int) {
                Some(&self@[index as int])
            } else {
                None
            },
    {
        if !self.contains_index(index) {
            return None;
        }
        let dense_idx = self.sparse[index];
        Some(&self.dense[dense_idx].value)
    }

    /// A mutable borrow of the value at `index`, or `None` if `index` holds no value.
    pub fn get_mut(&mut self, index: usize) -> (r: Option<&mut T>)
        requires
            old(self).wf(),
            old(self).probe_ok(index as int),
        ensures
            r is Some <==> old(self).holds(index as int),
            r matches Some(m) ==> *m == old(self)@[index as int],
            r matches Some(m) ==> final(self)@ == old(self)@.insert(index as int, *final(m)),
            r is None ==> final(self)@ == old(self)@,
            final(self).wf(),
            final(self).spec_len() == old(self).spec_len(),
            final(self).spec_sparse_len() == old(self).spec_sparse_len(),
            forall|i: int| #[trigger] final(self).probe_ok(i) == old(self).probe_ok(i),
    {
        if !self.contains_index(index) {
            return None;
        }
        let dense_idx = self.sparse[index];
        Some(&mut self.dense[dense_idx].value)
    }

    /// Whether `index` holds a value.
    pub fn contains_index(&self, index: usize) -> (r: bool)
        requires
            self.wf(),
            self.probe_ok(index as int),
        ensures
            r == self.holds(index as int),
    {
        if index >= self.sparse.len() {
            return false;
        }
        let dense_idx = self.sparse[index];
        let current_idx = self.dense[dense_idx].sparse_idx;
        dense_idx < self.len && index == current_idx
    }
}

/// A value pushed into the set can be read back under the returned index, which held no value
/// before; every value held before stays under its index.
pub proof fn lemma_get_after_push<T>(s0: SparseSet<T>, s1: SparseSet<T>, index: int, value: T)
    requires
        s0.wf(),
        index == s0.spec_sparse_len(),
        s1@ == s0@.insert(index, value),
    ensures
        s1@.contains_key(index),
        s1@[index] == value,
        !s0@.contains_key(index),
        forall|i: int| #[trigger] s0@.contains_key(i) ==> s1@.contains_key(i) && s1@[i] == s0@[i],
{
}

impl<T> Default for SparseSet<T> {
    fn default() -> (r: SparseSet<T>)
        ensures
            r.wf(),
            r.spec_len() == 0,
            r.spec_sparse_len() == 0,
            r@ == Map::<int, T>::empty(),
    {
        SparseSet::new()
    }
}

} // verus!

//! Component tables: rows of entities and the columns that store their components.
//!
//! A column stores the values of one component type back to back, as bytes: entry `i` occupies
//! the bytes `i * size .. (i + 1) * size`, where `size` is the size of the type.

use vstd::prelude::*;

use vstd::layout::{align_of, size_of};

use crate::archetype::Signature;
use crate::handle::EntityHandle;
use crate::type_map::{
    row_entries, row_map_insert, row_map_new, row_map_remove, type_entries, type_map_get,
    type_map_insert, type_map_new, EntityRowMap, TypeIndexMap,
};
use crate::typeid::{is_type_id_of, type_id_of};
use crate::util::{padded_size, repeat_layout, Layout};

verus! {

broadcast use crate::typeid::lemma_type_id_of;

/// The row of an entity in its table.
#[derive(Debug, Copy, Clone, PartialEq, Eq, Structural, Hash)]
pub struct TableRow(pub usize);

/// `i * s` and `(i + 1) * s` lie within `n * s` bytes when `i < n`.
proof fn lemma_entry_bounds(i: int, n: int, s: int)
    requires
        0 <= i < n,
        0 <= s,
    ensures
        0 <= i * s,
        i * s + s <= n * s,
        (i + 1) * s == i * s + s,
{
    assert(i * s + s <= n * s && 0 <= i * s && (i + 1) * s == i * s + s) by (nonlinear_arith)
        requires
            0 <= i < n,
            0 <= s,
    ;
}

/// `n * s <= m * s` when `n <= m`.
proof fn lemma_mul_le(n: int, m: int, s: int)
    requires
        0 <= n <= m,
        0 <= s,
    ensures
        0 <= n * s <= m * s,
{
    assert(0 <= n * s <= m * s) by (nonlinear_arith)
        requires
            0 <= n <= m,
            0 <= s,
    ;
}

/// The entries of `n` values of `s` bytes stored back to back in `bytes`.
pub open spec fn entries_of(bytes: Seq<u8>, n: int, s: int) -> Seq<Seq<u8>> {
    Seq::new(n as nat, |i: int| bytes.subrange(i * s, i * s + s))
}

/// The capacity a full column grows to: at least four more slots, and at least double.
pub open spec fn grown_capacity(cap: int) -> int {
    cap + if cap < 4 {
        4
    } else {
        cap
    }
}

/// Stores the values of a single component type.
#[derive(Debug)]
pub struct Column {
    /// The type identity of the values in this column.
    ty: std::any::TypeId,
    /// The layout of the component type.
    layout: Layout,
    /// The number of values in this column.
    len: usize,
    /// The number of values this column has room for.
    cap: usize,
    /// The values, back to back.
    data: Vec<u8>,
}

impl Column {
    /// The type identity of the values.
    pub closed spec fn ty(&self) -> std::any::TypeId {
        self.ty
    }

    /// The layout of one value.
    pub closed spec fn layout(&self) -> Layout {
        self.layout
    }

    /// The size of one value in bytes.
    pub open spec fn size(&self) -> int {
        self.layout().bytes() as int
    }

    /// The number of values the column has room for.
    pub closed spec fn cap(&self) -> usize {
        self.cap
    }

    /// The bytes of the values, back to back.
    pub closed spec fn bytes(&self) -> Seq<u8> {
        self.data@
    }

    /// The values, each as its bytes.
    pub closed spec fn view(&self) -> Seq<Seq<u8>> {
        entries_of(self.data@, self.len as int, self.layout.bytes() as int)
    }

    /// Whether `cap` values of the column's type make a valid array layout.
    pub open spec fn fits(&self, cap: int) -> bool {
        cap * self.size() <= isize::MAX - (isize::MAX as int) % (self.layout().alignment() as int)
    }

    /// Whether `value` can be appended: it has the size of a value, and where the column is full,
    /// the grown array has a valid layout.
    pub open spec fn can_push(&self, value: Seq<u8>) -> bool {
        &&& value.len() == self.size()
        &&& self@.len() < usize::MAX
        &&& self@.len() == self.cap() ==> grown_capacity(self.cap() as int) <= usize::MAX
            && self.fits(grown_capacity(self.cap() as int))
    }

    /// The column's invariant: the bytes hold exactly its values, the values fit in the
    /// capacity, and a type without size has unbounded capacity.
    pub closed spec fn wf(&self) -> bool {
        &&& self.data@.len() == self.len * self.layout.bytes()
        &&& self.len <= self.cap
        &&& self.layout.bytes() % self.layout.alignment() == 0
        &&& self.layout.alignment() > 0
        &&& self.layout.bytes() == 0 ==> self.cap == usize::MAX
        &&& self.layout.bytes() != 0 ==> self.fits(self.cap as int)
    }

    /// Creates an empty column for the type `T`.
    ///
    /// A type without size gets unbounded capacity, since its values take no room.
    pub fn new<T: 'static>() -> (r: Column)
        ensures
            r.wf(),
            r@ == Seq::<Seq<u8>>::empty(),
            is_type_id_of::<T>(r.ty()),
            r.size() == size_of::<T>(),
            r.layout().alignment() == align_of::<T>(),
            r.cap() == (if size_of::<T>() == 0 {
                usize::MAX
            } else {
                0
            }),
    {
        let layout = Layout::new::<T>();
        let r = if layout.size() == 0 {
            Column { ty: type_id_of::<T>(), layout, len: 0, cap: usize::MAX, data: Vec::new() }
        } else {
            Column { ty: type_id_of::<T>(), layout, len: 0, cap: 0, data: Vec::new() }
        };
        proof {
            assert(0 * r.size() == 0) by (nonlinear_arith);
            vstd::arithmetic::div_mod::lemma_mod_decreases(
                isize::MAX as nat,
                r.layout.alignment() as nat,
            );
            assert(r@ =~= Seq::<Seq<u8>>::empty());
        }
        r
    }

    /// The size of an entry in bytes, padding included.
    pub fn entry_size(&self) -> (r: usize)
        ensures
            r == self.size(),
    {
        self.layout.size()
    }

    /// The type identity of the values.
    pub fn type_id(&self) -> (r: std::any::TypeId)
        ensures
            r == self.ty(),
    {
        self.ty
    }

    /// The alignment of an entry in bytes.
    pub fn entry_align(&self) -> (r: usize)
        ensures
            r == self.layout().alignment(),
    {
        self.layout.align()
    }

    /// The number of values in the column.
    pub fn len(&self) -> (r: usize)
        requires
            self.wf(),
        ensures
            r == self@.len(),
    {
        self.len
    }

    /// The number of values the column has room for.
    pub fn capacity(&self) -> (r: usize)
        ensures
            r == self.cap(),
    {
        self.cap
    }

    /// Whether `value` can be pushed: it has the size of a value, the length does not overflow,
    /// and where the column is full, the grown array has a valid layout.
    pub fn accepts(&self, value: &[u8]) -> (r: bool)
        requires
            self.wf(),
        ensures
            r == self.can_push(value@),
    {
        let size = self.layout.size();
        if value.len() != size || self.len == usize::MAX {
            return false;
        }
        if self.len < self.cap {
            return true;
        }
        let extra = if self.cap < 4 {
            4
        } else {
            self.cap
        };
        if self.cap > usize::MAX - extra {
            return false;
        }
        let grown = self.cap + extra;
        let align = self.layout.align();
        let limit = (isize::MAX as usize) - (isize::MAX as usize) % align;
        match grown.checked_mul(size) {
            Some(bytes) => bytes <= limit,
            None => false,
        }
    }

    /// Makes room for `n` more values.
    ///
    /// The column's type must have a size, and the grown array a valid layout.
    pub fn reserve(&mut self, n: usize)
        requires
            old(self).wf(),
            old(self).size() != 0,
            old(self).cap() + n <= usize::MAX,
            old(self).fits(old(self).cap() + n),
        ensures
            final(self).wf(),
            final(self)@ == old(self)@,
            final(self).ty() == old(self).ty(),
            final(self).layout() == old(self).layout(),
            final(self).cap() == old(self).cap() + n,
    {
        if n == 0 {
            return ;
        }
        let cap = self.cap + n;
        let ghost s = self.layout.bytes() as int;
        let ghost a = self.layout.alignment() as int;
        assert(padded_size(s, a) == s);
        assert(s * cap == cap * s) by (nonlinear_arith);
        proof {
            lemma_mul_le(self.len as int, cap as int, s);
        }
        let new_layout = repeat_layout(self.layout, cap);
        let additional = new_layout.size() - self.data.len();
        self.data.reserve(additional);
        self.cap = cap;
    }

    /// Appends a value, given as its bytes; a full column first grows by at least four slots and
    /// at least doubles.
    ///
    /// `ty` is the type identity of the value, which must be that of the column; where the
    /// column is full, the grown array must have a valid layout.
    pub fn push(&mut self, ty: &std::any::TypeId, value: &[u8])
        requires
            old(self).wf(),
            *ty == old(self).ty(),
            old(self).can_push(value@),
        ensures
            final(self).wf(),
            final(self)@ == old(self)@.push(value@),
            final(self).ty() == old(self).ty(),
            final(self).layout() == old(self).layout(),
            final(self).cap() == (if old(self)@.len() == old(self).cap() {
                grown_capacity(old(self).cap() as int)
            } else {
                old(self).cap() as int
            }),
    {
        let ghost old_entries = self@;
        if self.cap <= self.len {
            let new_slots = if self.cap < 4 {
                4
            } else {
                self.cap
            };
            self.reserve(new_slots);
        }
        let ghost s = self.layout.bytes() as int;
        let ghost old_bytes = self.data@;
        let ghost pre = *self;
        let mut i: usize = 0;
        while i < value.len()
            invariant
                0 <= i <= value@.len(),
                self.ty == pre.ty,
                self.layout == pre.layout,
                self.len == pre.len,
                self.cap == pre.cap,
                value@.len() == s,
                s == self.layout.bytes(),
                self.data@ == old_bytes + value@.subrange(0, i as int),
            decreases value@.len() - i,
        {
            self.data.push(value[i]);
            i = i + 1;
            assert(self.data@ =~= old_bytes + value@.subrange(0, i as int));
        }
        let ghost n = self.len as int;
        self.len = self.len + 1;
        proof {
            assert(value@.subrange(0, s) =~= value@);
            assert((n + 1) * s == n * s + s) by (nonlinear_arith);
            if self.layout.bytes() != 0 {
                lemma_mul_le(self.len as int, self.cap as int, s);
            }
            assert forall|k: int| 0 <= k < n + 1 implies #[trigger] self@[k] == old_entries.push(
                value@,
            )[k] by {
                lemma_entry_bounds(k, n + 1, s);
                if k < n {
                    lemma_entry_bounds(k, n, s);
                    assert(self.data@.subrange(k * s, k * s + s) =~= old_bytes.subrange(
                        k * s,
                        k * s + s,
                    ));
                } else {
                    assert(self.data@.subrange(k * s, k * s + s) =~= value@);
                }
            }
            assert(self@ =~= old_entries.push(value@));
        }
    }

    /// The bytes of the value at `index`, or `None` past the end. `ty` is the type identity the
    /// value is read as, which must be that of the column.
    pub fn get(&self, ty: &std::any::TypeId, index: usize) -> (r: Option<&[u8]>)
        requires
            self.wf(),
            *ty == self.ty(),
        ensures
            r is Some <==> index < self@.len(),
            r is Some ==> r->0@ == self@[index as int],
    {
        if index >= self.len {
            return None;
        }
        let size = self.layout.size();
        proof {
            lemma_entry_bounds(index as int, self.len as int, size as int);
            if size != 0 {
                lemma_mul_le(self.len as int, self.cap as int, size as int);
            }
        }
        let start = index * size;
        let slice = self.data.as_slice();
        Some(&slice[start..start + size])
    }

    /// Removes the value at `idx`, moving the last value into its slot, and returns the bytes
    /// of the removed value, so that it can be dropped exactly once.
    ///
    /// `idx` must be within the column.
    pub fn swap_remove(&mut self, idx: usize) -> (r: Vec<u8>)
        requires
            old(self).wf(),
            idx < old(self)@.len(),
        ensures
            r@ == old(self)@[idx as int],
            final(self).wf(),
            final(self)@ == old(self)@.update(idx as int, old(self)@.last()).drop_last(),
            final(self).ty() == old(self).ty(),
            final(self).layout() == old(self).layout(),
            final(self).cap() == old(self).cap(),
    {
        let ghost old_entries = self@;
        let ghost old_bytes = self.data@;
        let ghost n = self.len as int;
        let size = self.layout.size();
        let last = self.len - 1;
        proof {
            lemma_entry_bounds(idx as int, n, size as int);
            lemma_entry_bounds(last as int, n, size as int);
            if size != 0 {
                lemma_mul_le(n, self.cap as int, size as int);
            } else {
                assert(n * size == 0) by (nonlinear_arith)
                    requires
                        size == 0,
                ;
            }
        }
        let dst = idx * size;
        let src = last * size;
        let mut removed: Vec<u8> = Vec::new();
        let mut k: usize = 0;
        while k < size
            invariant
                0 <= k <= size,
                dst + size <= old_bytes.len(),
                dst + size <= usize::MAX,
                self.data@ == old_bytes,
                removed@ == old_bytes.subrange(dst as int, dst + k),
            decreases size - k,
        {
            removed.push(self.data[dst + k]);
            k = k + 1;
            assert(removed@ =~= old_bytes.subrange(dst as int, dst + k));
        }
        if idx != last {
            proof {
                lemma_entry_bounds(idx as int, last as int, size as int);
            }
            let ghost pre = *self;
            let mut k: usize = 0;
            while k < size
                invariant
                    0 <= k <= size,
                    self.ty == pre.ty,
                    self.layout == pre.layout,
                    self.len == pre.len,
                    self.cap == pre.cap,
                    dst + size <= src,
                    src + size == old_bytes.len(),
                    src + size <= usize::MAX,
                    self.data@.len() == old_bytes.len(),
                    forall|j: int|
                        0 <= j < old_bytes.len() && !(dst <= j < dst + k) ==> #[trigger] self.data@[j]
                            == old_bytes[j],
                    forall|j: int| dst <= j < dst + k ==> #[trigger] self.data@[j] == old_bytes[j
                        + src - dst],
                decreases size - k,
            {
                let b = self.data[src + k];
                self.data.set(dst + k, b);
                k = k + 1;
            }
        }
        self.data.truncate(src);
        self.len = last;
        proof {
            let s = size as int;
            lemma_mul_le(last as int, n, s);
            assert forall|i: int| 0 <= i < n - 1 implies #[trigger] self@[i] == old_entries.update(
                idx as int,
                old_entries.last(),
            ).drop_last()[i] by {
                lemma_entry_bounds(i, n - 1, s);
                lemma_entry_bounds(i, n, s);
                if i == idx {
                    assert(self.data@.subrange(i * s, i * s + s) =~= old_bytes.subrange(
                        src as int,
                        src + s,
                    ));
                } else {
                    if i < idx {
                        lemma_entry_bounds(i, idx as int, s);
                    } else {
                        lemma_entry_bounds(idx as int, i, s);
                    }
                    assert(self.data@.subrange(i * s, i * s + s) =~= old_bytes.subrange(
                        i * s,
                        i * s + s,
                    ));
                }
            }
            assert(self@ =~= old_entries.update(idx as int, old_entries.last()).drop_last());
        }
        removed
    }
}

impl Column {
    /// Takes every value out, in order, each as its bytes, so that each can be dropped exactly
    /// once; the column is left empty with its capacity.
    pub fn take_values(&mut self) -> (r: Vec<Vec<u8>>)
        requires
            old(self).wf(),
        ensures
            r.deep_view() == old(self)@,
            final(self).wf(),
            final(self)@ == Seq::<Seq<u8>>::empty(),
            final(self).ty() == old(self).ty(),
            final(self).layout() == old(self).layout(),
            final(self).cap() == old(self).cap(),
    {
        let ghost entries = self@;
        let ghost bytes = self.data@;
        let size = self.layout.size();
        let n = self.len;
        proof {
            if size != 0 {
                lemma_mul_le(n as int, self.cap as int, size as int);
            } else {
                assert(n * size == 0) by (nonlinear_arith)
                    requires
                        size == 0,
                ;
            }
        }
        let mut out: Vec<Vec<u8>> = Vec::new();
        let mut i: usize = 0;
        while i < n
            invariant
                0 <= i <= n,
                n == self.len,
                size == self.layout.bytes(),
                self.data@ == bytes,
                bytes.len() == n * size,
                n * size <= usize::MAX,
                entries == entries_of(bytes, n as int, size as int),
                out@.len() == i,
                forall|j: int| 0 <= j < i ==> (#[trigger] out@[j])@ == entries[j],
            decreases n - i,
        {
            proof {
                lemma_entry_bounds(i as int, n as int, size as int);
            }
            let start = i * size;
            let mut value: Vec<u8> = Vec::new();
            let mut k: usize = 0;
            while k < size
                invariant
                    0 <= k <= size,
                    self.data@ == bytes,
                    start + size <= bytes.len(),
                    bytes.len() <= usize::MAX,
                    value@ == bytes.subrange(start as int, start + k),
                decreases size - k,
            {
                value.push(self.data[start + k]);
                k = k + 1;
                assert(value@ =~= bytes.subrange(start as int, start + k));
            }
            out.push(value);
            i = i + 1;
        }
        self.data.clear();
        self.len = 0;
        proof {
            assert(0 * size == 0) by (nonlinear_arith);
            assert forall|j: int| 0 <= j < out@.len() implies #[trigger] out.deep_view()[j]
                == entries[j] by {
                assert(out.deep_view()[j] =~= out@[j]@);
            }
            assert(out.deep_view() =~= entries);
            assert(self@ =~= Seq::<Seq<u8>>::empty());
        }
        out
    }
}

/// What a push then a read gives back: the pushed value sits after the values that were there,
/// and those stay as they were.
pub proof fn lemma_push_then_get(before: Column, after: Column, value: Seq<u8>)
    requires
        after@ == before@.push(value),
    ensures
        after@.len() == before@.len() + 1,
        after@[before@.len() as int] == value,
        forall|i: int| 0 <= i < before@.len() ==> #[trigger] after@[i] == before@[i],
{
}

/// Swapping out element `i` removes exactly one copy of it: the other elements stay, whatever
/// their order.
pub proof fn lemma_swap_remove_multiset<A>(s: Seq<A>, i: int)
    requires
        0 <= i < s.len(),
    ensures
        s.update(i, s.last()).drop_last().to_multiset() == s.to_multiset().remove(s[i]),
{
    broadcast use vstd::multiset::group_multiset_axioms;
    let t = s.update(i, s.last());
    assert(t.drop_last() =~= t.remove(t.len() - 1));
    vstd::seq_lib::to_multiset_remove(t, t.len() - 1);
    vstd::seq_lib::to_multiset_update(s, i, s.last());
    assert(t[t.len() - 1] == s.last());
    assert(t.drop_last().to_multiset() =~= s.to_multiset().remove(s[i]));
}

/// Removing the value at `idx` from a column keeps every other value: the column's values lose
/// exactly one copy of the removed one.
pub proof fn lemma_swap_remove_keeps_others(before: Column, after: Column, idx: int)
    requires
        0 <= idx < before@.len(),
        after@ == before@.update(idx, before@.last()).drop_last(),
    ensures
        after@.to_multiset() == before@.to_multiset().remove(before@[idx]),
        after@.len() == before@.len() - 1,
{
    lemma_swap_remove_multiset(before@, idx);
}

/// The map from type identities to the index of the last of `cols[..n]` that holds that type.
pub open spec fn type_index(cols: Seq<Column>, n: int) -> Map<std::any::TypeId, usize>
    decreases n,
{
    if n <= 0 {
        Map::empty()
    } else {
        type_index(cols, n - 1).insert(cols[n - 1].ty(), (n - 1) as usize)
    }
}

/// The main storage of entity components, made for a single archetype: one column per component,
/// and one row per entity.
///
/// The entity at index `i` of the entity list has its components in row `i` of every column.
#[derive(Debug)]
pub struct Table {
    /// The archetype of this table.
    signature: Signature,
    /// The entities, in row order.
    entities: Vec<EntityHandle>,
    /// The row recorded for each inserted entity, by the bits of its handle.
    entity_lookup: EntityRowMap,
    /// The column of each component type.
    lookup: TypeIndexMap,
    /// The columns.
    columns: Vec<Column>,
}

impl Table {
    /// The archetype.
    pub closed spec fn signature(&self) -> Signature {
        self.signature
    }

    /// The entities, in row order.
    pub closed spec fn entities(&self) -> Seq<EntityHandle> {
        self.entities@
    }

    /// The row recorded for each inserted entity, by the bits of its handle.
    pub closed spec fn rows(&self) -> Map<u64, usize> {
        row_entries(self.entity_lookup)
    }

    /// The column of each component type.
    pub closed spec fn column_of(&self) -> Map<std::any::TypeId, usize> {
        type_entries(self.lookup)
    }

    /// The columns.
    pub closed spec fn cols(&self) -> Seq<Column> {
        self.columns@
    }

    /// Every column is well formed and has one value per entity.
    pub open spec fn wf(&self) -> bool {
        forall|i: int|
            0 <= i < self.cols().len() ==> (#[trigger] self.cols()[i]).wf() && self.cols()[i]@.len()
                == self.entities().len()
    }

    /// Creates a table for the archetype `signature` with the given empty columns, and records
    /// the column of each component type.
    pub fn new(signature: Signature, columns: Vec<Column>) -> (r: Table)
        requires
            forall|i: int| 0 <= i < columns@.len() ==> (#[trigger] columns@[i]).wf() && columns@[i]@.len() == 0,
        ensures
            r.wf(),
            r.signature() == signature,
            r.entities() == Seq::<EntityHandle>::empty(),
            r.rows() == Map::<u64, usize>::empty(),
            r.cols() == columns@,
            r.column_of() == type_index(columns@, columns@.len() as int),
    {
        let mut lookup = type_map_new();
        let mut i: usize = 0;
        while i < columns.len()
            invariant
                0 <= i <= columns@.len(),
                type_entries(lookup) == type_index(columns@, i as int),
            decreases columns@.len() - i,
        {
            type_map_insert(&mut lookup, columns[i].ty, i);
            i = i + 1;
        }
        Table { signature, entities: Vec::new(), entity_lookup: row_map_new(), lookup, columns }
    }

    /// The archetype of this table.
    pub fn archetype(&self) -> (r: &Signature)
        ensures
            *r == self.signature(),
    {
        &self.signature
    }

    /// Inserts an entity with its components, one per column in column order, and returns the
    /// row it was inserted at.
    pub fn insert(&mut self, entity: EntityHandle, components: &Vec<Vec<u8>>) -> (r: TableRow)
        requires
            old(self).wf(),
            old(self).entities().len() < usize::MAX,
            components@.len() == old(self).cols().len(),
            forall|i: int|
                0 <= i < components@.len() ==> old(self).cols()[i].can_push(
                    #[trigger] components@[i]@,
                ),
        ensures
            final(self).wf(),
            r.0 == old(self).entities().len(),
            final(self).entities() == old(self).entities().push(entity),
            final(self).rows() == old(self).rows().insert(entity.spec_bits() as u64, r.0),
            final(self).signature() == old(self).signature(),
            final(self).column_of() == old(self).column_of(),
            final(self).cols().len() == old(self).cols().len(),
            forall|i: int|
                0 <= i < final(self).cols().len() ==> {
                    &&& (#[trigger] final(self).cols()[i])@ == old(self).cols()[i]@.push(
                        components@[i]@,
                    )
                    &&& final(self).cols()[i].ty() == old(self).cols()[i].ty()
                    &&& final(self).cols()[i].layout() == old(self).cols()[i].layout()
                },
    {
        let row = self.entities.len();
        self.entities.push(entity);
        let bits = entity.to_bits();
        row_map_insert(&mut self.entity_lookup, bits, row);
        let ghost old_cols = self.columns@;
        let ghost pre = *self;
        let mut i: usize = 0;
        while i < self.columns.len()
            invariant
                0 <= i <= self.columns@.len(),
                self.entities == pre.entities,
                self.entity_lookup == pre.entity_lookup,
                self.signature == pre.signature,
                self.lookup == pre.lookup,
                self.columns@.len() == old_cols.len(),
                components@.len() == old_cols.len(),
                self.entities@.len() == row + 1,
                forall|j: int| 0 <= j < old_cols.len() ==> (#[trigger] old_cols[j]).wf() && old_cols[j]@.len() == row,
                forall|j: int|
                    0 <= j < old_cols.len() ==> old_cols[j].can_push(#[trigger] components@[j]@),
                forall|j: int|
                    0 <= j < self.columns@.len() ==> {
                        &&& (#[trigger] self.columns@[j]).wf()
                        &&& self.columns@[j].ty == old_cols[j].ty
                        &&& self.columns@[j].layout == old_cols[j].layout
                        &&& j < i ==> self.columns@[j]@ == old_cols[j]@.push(components@[j]@)
                        &&& j >= i ==> self.columns@[j] == old_cols[j]
                    },
            decreases old_cols.len() - i,
        {
            let ty = self.columns[i].type_id();
            self.columns[i].push(&ty, components[i].as_slice());
            i = i + 1;
        }
        TableRow(row)
    }

    /// Removes an entity: its row is taken by the last row, in the entity list and in every
    /// column. An entity without a recorded row leaves the table unchanged.
    ///
    /// The recorded row, if any, must be within the table.
    pub fn remove(&mut self, entity: EntityHandle) -> (r: Option<Vec<Vec<u8>>>)
        requires
            old(self).wf(),
            old(self).rows().contains_key(entity.spec_bits() as u64) ==> old(self).rows()[entity.spec_bits() as u64]
                < old(self).entities().len(),
        ensures
            final(self).wf(),
            r is Some <==> old(self).rows().contains_key(entity.spec_bits() as u64),
            r is Some ==> r->0@.len() == old(self).cols().len() && forall|i: int|
                0 <= i < old(self).cols().len() ==> (#[trigger] r->0@[i])@ == old(self).cols()[i]@[old(
                    self,
                ).rows()[entity.spec_bits() as u64] as int],
            final(self).rows() == old(self).rows().remove(entity.spec_bits() as u64),
            final(self).signature() == old(self).signature(),
            final(self).column_of() == old(self).column_of(),
            final(self).cols().len() == old(self).cols().len(),
            !old(self).rows().contains_key(entity.spec_bits() as u64) ==> final(self).entities()
                == old(self).entities() && final(self).cols() == old(self).cols(),
            old(self).rows().contains_key(entity.spec_bits() as u64) ==> {
                let row = old(self).rows()[entity.spec_bits() as u64] as int;
                &&& final(self).entities() == old(self).entities().update(
                    row,
                    old(self).entities().last(),
                ).drop_last()
                &&& forall|i: int|
                    0 <= i < final(self).cols().len() ==> {
                        &&& (#[trigger] final(self).cols()[i])@ == old(self).cols()[i]@.update(
                            row,
                            old(self).cols()[i]@.last(),
                        ).drop_last()
                        &&& final(self).cols()[i].ty() == old(self).cols()[i].ty()
                        &&& final(self).cols()[i].layout() == old(self).cols()[i].layout()
                    }
            },
    {
        let bits = entity.to_bits();
        match row_map_remove(&mut self.entity_lookup, &bits) {
            None => {
                assert forall|j: int| 0 <= j < self.cols().len() implies (#[trigger] self.cols()[j]).wf() && self.cols()[j]@.len() == self.entities().len() by {
                    assert(old(self).cols()[j] == self.cols()[j]);
                }
                None
            },
            Some(row) => {
                self.entities.swap_remove(row);
                let ghost old_cols = self.columns@;
                let ghost pre = *self;
                assert forall|j: int| 0 <= j < old_cols.len() implies (#[trigger] old_cols[j]).wf() && old_cols[j]@.len() == self.entities@.len() + 1 by {
                    assert(old(self).cols()[j] == old_cols[j]);
                }
                let mut removed: Vec<Vec<u8>> = Vec::new();
                let mut i: usize = 0;
                while i < self.columns.len()
                    invariant
                        0 <= i <= self.columns@.len(),
                        self.entities == pre.entities,
                        self.entity_lookup == pre.entity_lookup,
                        self.signature == pre.signature,
                        self.lookup == pre.lookup,
                        self.columns@.len() == old_cols.len(),
                        row < self.entities@.len() + 1,
                        removed@.len() == i,
                        forall|j: int| 0 <= j < i ==> (#[trigger] removed@[j])@ == old_cols[j]@[row as int],
                        forall|j: int| 0 <= j < old_cols.len() ==> (#[trigger] old_cols[j]).wf() && old_cols[j]@.len() == self.entities@.len() + 1,
                        forall|j: int|
                            0 <= j < self.columns@.len() ==> {
                                &&& (#[trigger] self.columns@[j]).wf()
                                &&& self.columns@[j].ty == old_cols[j].ty
                                &&& self.columns@[j].layout == old_cols[j].layout
                                &&& j < i ==> self.columns@[j]@ == old_cols[j]@.update(
                                    row as int,
                                    old_cols[j]@.last(),
                                ).drop_last()
                                &&& j >= i ==> self.columns@[j] == old_cols[j]
                            },
                    decreases old_cols.len() - i,
                {
                    let bytes = self.columns[i].swap_remove(row);
                    removed.push(bytes);
                    i = i + 1;
                }
                assert forall|j: int| 0 <= j < self.cols().len() implies (#[trigger] self.cols()[j]).wf() && self.cols()[j]@.len() == self.entities().len() by {
                    assert(self.columns@[j]@ == old_cols[j]@.update(row as int, old_cols[j]@.last()).drop_last());
                }
                Some(removed)
            },
        }
    }

    /// Whether the entity is one of this table's entities.
    pub fn contains_entity(&self, entity: EntityHandle) -> (r: bool)
        ensures
            r == self.entities().contains(entity),
    {
        let mut i: usize = 0;
        while i < self.entities.len()
            invariant
                0 <= i <= self.entities@.len(),
                forall|j: int| 0 <= j < i ==> self.entities@[j] != entity,
            decreases self.entities@.len() - i,
        {
            if self.entities[i] == entity {
                return true;
            }
            i = i + 1;
        }
        false
    }

    /// The column that holds the component type `ty`, if any.
    pub fn column_index(&self, ty: &std::any::TypeId) -> (r: Option<usize>)
        ensures
            r == (if self.column_of().contains_key(*ty) {
                Some(self.column_of()[*ty])
            } else {
                None
            }),
    {
        type_map_get(&self.lookup, ty)
    }

    /// The columns of this table.
    pub fn columns(&self) -> (r: &[Column])
        ensures
            r@ == self.cols(),
    {
        self.columns.as_slice()
    }

    /// The column at `index`.
    pub fn column(&self, index: usize) -> (r: &Column)
        requires
            index < self.cols().len(),
        ensures
            *r == self.cols()[index as int],
    {
        &self.columns[index]
    }

    /// The number of entities stored in this table.
    pub fn len(&self) -> (r: usize)
        ensures
            r == self.entities().len(),
    {
        self.entities.len()
    }
}

/// A table built from the columns of distinct component types finds each column under the type
/// identity of its component: where `cols[k]` was made by `Column::new::<T>()`, looking up the
/// type identity of `T` in the table's column index gives `k`.
pub proof fn lemma_new_columns_keyed_by_type<T: 'static>(cols: Seq<Column>, k: int)
    requires
        0 <= k < cols.len() <= usize::MAX,
        call_ensures(Column::new::<T>, (), cols[k]),
        forall|j: int| 0 <= j < cols.len() && j != k ==> #[trigger] cols[j].ty() != cols[k].ty(),
    ensures
        is_type_id_of::<T>(cols[k].ty()),
        type_index(cols, cols.len() as int).contains_key(cols[k].ty()),
        type_index(cols, cols.len() as int)[cols[k].ty()] == k,
{
    lemma_type_index_finds(cols, cols.len() as int, k);
}

proof fn lemma_type_index_finds(cols: Seq<Column>, n: int, k: int)
    requires
        0 <= k < n <= cols.len(),
        cols.len() <= usize::MAX,
        forall|j: int| 0 <= j < cols.len() && j != k ==> #[trigger] cols[j].ty() != cols[k].ty(),
    ensures
        type_index(cols, n).contains_key(cols[k].ty()),
        type_index(cols, n)[cols[k].ty()] == k,
    decreases n,
{
    if n - 1 > k {
        lemma_type_index_finds(cols, n - 1, k);
        assert(cols[n - 1].ty() != cols[k].ty());
    }
}

} // verus!

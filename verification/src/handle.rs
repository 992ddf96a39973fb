//! Entity handles: an index into the entity registry paired with a generation counter.

use std::cmp::Ordering;

use vstd::prelude::*;

verus! {

/// The index part of an entity handle.
#[derive(Debug, Copy, Clone, PartialEq, Eq, Structural, PartialOrd, Ord, Hash)]
pub struct EntityIndex(pub u32);

/// The generation part of an entity handle. It is bumped every time an index is reused.
#[derive(Debug, Copy, Clone, PartialEq, Eq, Structural, PartialOrd, Ord, Hash)]
pub struct EntityGeneration(pub u32);

/// A handle that identifies an entity: its index and the generation of that index.
///
/// Two handles are equal exactly when their indices and generations are (`lemma_handle_eq`),
/// which is when their packed `u64` forms are (`lemma_bits_injective`). `<` and `partial_cmp`
/// order handles by index first and generation second, as their packed forms are ordered
/// (`lemma_handle_order`); the derived `Ord` compares the fields in the same order.
#[derive(Debug, Copy, Clone, PartialEq, Eq, Structural, Ord, Hash)]
pub struct EntityHandle {
    index: EntityIndex,
    generation: EntityGeneration,
}

/// The packed form of a handle: the index in the upper 32 bits, the generation in the lower 32.
pub open spec fn pack_bits(index: u32, generation: u32) -> int {
    (index as int) * 0x1_0000_0000 + generation as int
}

impl EntityIndex {
    /// The index used to mark an empty slot (`u32::MAX`).
    pub fn tombstone() -> (r: EntityIndex)
        ensures
            r.0 == 0xFFFF_FFFFu32,
    {
        EntityIndex(0xFFFF_FFFFu32)
    }

    /// Returns the raw index.
    pub fn to_bits(&self) -> (r: u32)
        ensures
            r == self.0,
    {
        self.0
    }

    /// Wraps a raw index.
    pub fn from_bits(index: u32) -> (r: EntityIndex)
        ensures
            r.0 == index,
    {
        EntityIndex(index)
    }
}

impl EntityGeneration {
    /// The generation of a freshly allocated index (zero).
    pub fn first() -> (r: EntityGeneration)
        ensures
            r.0 == 0,
    {
        EntityGeneration(0u32)
    }

    /// Returns the raw generation.
    pub fn to_bits(&self) -> (r: u32)
        ensures
            r == self.0,
    {
        self.0
    }

    /// Wraps a raw generation.
    pub fn from_bits(bits: u32) -> (r: EntityGeneration)
        ensures
            r.0 == bits,
    {
        EntityGeneration(bits)
    }
}

impl EntityHandle {
    /// The index part of this handle.
    pub closed spec fn spec_index(self) -> u32 {
        self.index.0
    }

    /// The generation part of this handle.
    pub closed spec fn spec_generation(self) -> u32 {
        self.generation.0
    }

    /// The packed form of this handle.
    pub open spec fn spec_bits(self) -> int {
        pack_bits(self.spec_index(), self.spec_generation())
    }

    /// Builds a handle from an index and a generation.
    pub fn from_index_and_generation(index: EntityIndex, generation: EntityGeneration) -> (r: EntityHandle)
        ensures
            r.spec_index() == index.0,
            r.spec_generation() == generation.0,
    {
        EntityHandle { index, generation }
    }

    /// The handle that refers to no entity: maximal index and maximal generation.
    pub fn dangling() -> (r: EntityHandle)
        ensures
            r.spec_index() == 0xFFFF_FFFFu32,
            r.spec_generation() == 0xFFFF_FFFFu32,
    {
        EntityHandle { index: EntityIndex(0xFFFF_FFFFu32), generation: EntityGeneration(0xFFFF_FFFFu32) }
    }

    /// Whether this is the dangling handle.
    pub fn is_dangling(&self) -> (r: bool)
        ensures
            r == (self.spec_index() == 0xFFFF_FFFFu32 && self.spec_generation() == 0xFFFF_FFFFu32),
    {
        let bits = self.to_bits();
        let d = EntityHandle::dangling();
        let dbits = d.to_bits();
        proof {
            lemma_pack_injective(self.index.0, self.generation.0, d.index.0, d.generation.0);
        }
        bits == dbits
    }

    /// Packs the handle into a `u64`: the index in the upper half, the generation in the lower half.
    pub fn to_bits(&self) -> (r: u64)
        ensures
            r == self.spec_bits(),
    {
        let g = self.generation.to_bits() as u64;
        let i = self.index.to_bits() as u64;
        let r = g | (i << 32u64);
        proof {
            lemma_pack_bits(i, g);
        }
        r
    }

    /// The index part of this handle.
    pub fn index(&self) -> (r: EntityIndex)
        ensures
            r.0 == self.spec_index(),
    {
        self.index
    }

    /// The generation part of this handle.
    pub fn generation(&self) -> (r: EntityGeneration)
        ensures
            r.0 == self.spec_generation(),
    {
        self.generation
    }
}

proof fn lemma_pack_bits(i: u64, g: u64)
    requires
        i <= 0xFFFF_FFFF,
        g <= 0xFFFF_FFFF,
    ensures
        g | (i << 32u64) == i * 0x1_0000_0000 + g,
{
    assert(g | (i << 32u64) == i * 0x1_0000_0000 + g) by (bit_vector)
        requires
            i <= 0xFFFF_FFFF,
            g <= 0xFFFF_FFFF,
    ;
}

/// Packing is injective: two handles pack to the same `u64` exactly when their indices and
/// generations agree.
pub proof fn lemma_pack_injective(i1: u32, g1: u32, i2: u32, g2: u32)
    ensures
        (pack_bits(i1, g1) == pack_bits(i2, g2)) <==> (i1 == i2 && g1 == g2),
{
}

impl PartialOrd for EntityHandle {
    fn partial_cmp(&self, other: &EntityHandle) -> (r: Option<Ordering>) {
        if self.index.0 < other.index.0 {
            Some(Ordering::Less)
        } else if other.index.0 < self.index.0 {
            Some(Ordering::Greater)
        } else if self.generation.0 < other.generation.0 {
            Some(Ordering::Less)
        } else if other.generation.0 < self.generation.0 {
            Some(Ordering::Greater)
        } else {
            Some(Ordering::Equal)
        }
    }
}

impl vstd::std_specs::cmp::PartialOrdSpecImpl for EntityHandle {
    open spec fn obeys_partial_cmp_spec() -> bool {
        true
    }

    open spec fn partial_cmp_spec(&self, other: &EntityHandle) -> Option<Ordering> {
        handle_order(*self, *other)
    }
}

/// How `partial_cmp` orders two handles: by index, then by generation.
pub open spec fn handle_order(a: EntityHandle, b: EntityHandle) -> Option<Ordering> {
    if a.spec_index() < b.spec_index() {
        Some(Ordering::Less)
    } else if b.spec_index() < a.spec_index() {
        Some(Ordering::Greater)
    } else if a.spec_generation() < b.spec_generation() {
        Some(Ordering::Less)
    } else if b.spec_generation() < a.spec_generation() {
        Some(Ordering::Greater)
    } else {
        Some(Ordering::Equal)
    }
}

/// Handles are ordered by index first and generation second: one handle comes before another
/// exactly when its packed form is smaller, and they compare equal exactly when they are equal.
pub proof fn lemma_handle_order(a: EntityHandle, b: EntityHandle)
    ensures
        (handle_order(a, b) == Some(Ordering::Less)) <==> (a.spec_index() < b.spec_index() || (
        a.spec_index() == b.spec_index() && a.spec_generation() < b.spec_generation())),
        (handle_order(a, b) == Some(Ordering::Less)) <==> a.spec_bits() < b.spec_bits(),
        (handle_order(a, b) == Some(Ordering::Greater)) <==> b.spec_bits() < a.spec_bits(),
        (handle_order(a, b) == Some(Ordering::Equal)) <==> a == b,
{
    lemma_bits_order(a, b);
    lemma_bits_order(b, a);
}

/// Two handles are equal exactly when their indices and their generations are equal.
pub proof fn lemma_handle_eq(a: EntityHandle, b: EntityHandle)
    ensures
        (a == b) <==> (a.spec_index() == b.spec_index() && a.spec_generation()
            == b.spec_generation()),
{
}

/// Two handles are equal exactly when their packed forms are equal.
pub proof fn lemma_bits_injective(a: EntityHandle, b: EntityHandle)
    ensures
        (a.spec_bits() == b.spec_bits()) <==> (a == b),
{
    lemma_pack_injective(a.index.0, a.generation.0, b.index.0, b.generation.0);
}

/// The packed form orders handles by index first and generation second, which is the order
/// of the handle's fields.
pub proof fn lemma_bits_order(a: EntityHandle, b: EntityHandle)
    ensures
        (a.spec_bits() < b.spec_bits()) <==> (a.spec_index() < b.spec_index() || (
        a.spec_index() == b.spec_index() && a.spec_generation() < b.spec_generation())),
{
}

/// The index and generation can be read back from the packed form.
pub proof fn lemma_bits_roundtrip(h: EntityHandle)
    ensures
        h.spec_bits() / 0x1_0000_0000 == h.spec_index(),
        h.spec_bits() % 0x1_0000_0000 == h.spec_generation(),
{
    let i = h.index.0 as int;
    let g = h.generation.0 as int;
    assert((i * 0x1_0000_0000 + g) / 0x1_0000_0000 == i) by (nonlinear_arith)
        requires 0 <= g < 0x1_0000_0000, 0 <= i;
    assert((i * 0x1_0000_0000 + g) % 0x1_0000_0000 == g) by (nonlinear_arith)
        requires 0 <= g < 0x1_0000_0000, 0 <= i;
}

} // verus!

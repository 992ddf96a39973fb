//! Resource identifiers.

use vstd::prelude::*;

use crate::typeid::{is_type_id_of, type_id_eq, type_id_of};

verus! {

broadcast use crate::typeid::lemma_type_id_of;

/// A marker trait for global data shared between systems.
pub trait Resource: Send + Sync + 'static {}

/// Identifies a resource by its type.
#[derive(Debug, Copy, Clone, Hash)]
pub struct ResourceId(pub std::any::TypeId);

impl ResourceId {
    /// The id of the resource type `R`.
    pub fn of<R: Resource>() -> (r: ResourceId)
        ensures
            is_type_id_of::<R>(r.0),
    {
        ResourceId(type_id_of::<R>())
    }

    /// Whether the two ids are the same.
    pub fn same(&self, other: &ResourceId) -> (r: bool)
        ensures
            r == (*self == *other),
    {
        type_id_eq(&self.0, &other.0)
    }
}

/// Where the last segment of a `::`-separated path starts, reading `name` from `i` while the
/// current segment starts at `start`. Separators are matched left to right and do not overlap,
/// as `str::split` matches them.
pub open spec fn segment_start(name: Seq<u8>, i: int, start: int) -> int
    decreases name.len() - i,
{
    if i + 1 >= name.len() {
        start
    } else if name[i] == 0x3a && name[i + 1] == 0x3a {
        segment_start(name, i + 2, i + 2)
    } else {
        segment_start(name, i + 1, start)
    }
}

/// The byte offset at which the last `::`-separated segment of a type name starts: the short
/// name of a resource in diagnostics. It is zero where the name holds no separator.
pub fn short_name_start(name: &[u8]) -> (r: usize)
    ensures
        r == segment_start(name@, 0, 0),
        r <= name@.len(),
{
    let mut i: usize = 0;
    let mut start: usize = 0;
    while name.len() - i >= 2
        invariant
            start <= i <= name@.len(),
            segment_start(name@, 0, 0) == segment_start(name@, i as int, start as int),
        decreases name@.len() - i,
    {
        if name[i] == 0x3a && name[i + 1] == 0x3a {
            i = i + 2;
            start = i;
        } else {
            i = i + 1;
        }
    }
    start
}

/// Per-system state of a resource parameter: the names used in diagnostics.
pub struct ResState {
    pub system: &'static str,
    pub resource: &'static str,
}

} // verus!

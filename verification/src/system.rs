//! System identifiers and metadata.

use vstd::prelude::*;

use crate::typeid::{is_type_id_of, type_id_eq, type_id_of};

verus! {

broadcast use crate::typeid::lemma_type_id_of;

/// Identifies a system by the type of the function that implements it.
#[derive(Debug, Copy, Clone, Hash)]
pub struct SystemId(pub std::any::TypeId);

impl SystemId {
    /// The id of the system implemented by the function type `F`.
    pub fn of<P, F: 'static>() -> (r: SystemId)
        ensures
            is_type_id_of::<F>(r.0),
    {
        SystemId(type_id_of::<F>())
    }

    /// Whether the two ids are the same.
    pub fn same(&self, other: &SystemId) -> (r: bool)
        ensures
            r == (*self == *other),
    {
        type_id_eq(&self.0, &other.0)
    }
}

/// The metadata of a system: its id and its name.
#[derive(Debug)]
pub struct SystemMeta {
    pub id: SystemId,
    pub name: &'static str,
}

impl SystemMeta {
    /// Returns the unique identifier of the system.
    pub fn id(&self) -> (r: SystemId)
        ensures
            r == self.id,
    {
        self.id
    }

    /// Returns the name of the system.
    pub fn name(&self) -> (r: &'static str)
        ensures
            r == self.name,
    {
        self.name
    }
}

} // verus!

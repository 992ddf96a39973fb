//! Marker types: sealing, schedule labels and query kinds.

use vstd::prelude::*;

use std::marker::PhantomData;

use crate::component::Component;

verus! {

/// A trait that only this crate can implement.
pub trait Sealed {}

/// The one implementor of `Sealed`; no value of it can be made outside this crate.
pub struct Sealer {
    _private: (),
}

impl Sealed for Sealer {}

/// A label that names a schedule.
pub trait ScheduleLabel {
    /// The label's name.
    const NAME: &'static str;
}

/// Identifies a schedule label by its type.
#[derive(Debug, Copy, Clone, Hash)]
pub struct SystemLabelId(pub(crate) std::any::TypeId);

/// What a query item reads.
#[derive(Debug, Copy, Clone, PartialEq, Eq, Structural, Hash)]
pub enum QueryType {
    /// A component.
    Component,
    /// The entity itself.
    Entity,
    /// A reference to the entity.
    EntityRef,
    /// Whether the entity has a component.
    Has,
}

/// A query item that tells whether the entity has component `T`.
pub struct Has<T: Component> {
    _marker: PhantomData<T>,
}

} // verus!

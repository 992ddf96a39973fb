//! Events: typed messages that systems send to each other, buffered per event type.

use vstd::prelude::*;

use std::marker::PhantomData;

use crate::typeid::{is_type_id_of, type_id_eq, type_id_of};

verus! {

broadcast use crate::typeid::lemma_type_id_of;

/// A type of message that systems can send.
pub trait Event: 'static {
    /// The name of the event type, used in diagnostics.
    const NAME: &'static str;
}

/// Identifies an event type.
#[derive(Debug, Copy, Clone, Hash)]
pub struct EventId(pub(crate) std::any::TypeId);

impl EventId {
    /// The type identity this id holds.
    pub closed spec fn type_id(&self) -> std::any::TypeId {
        self.0
    }

    /// The id of the event type `T`.
    pub fn of<T: Event>() -> (r: EventId)
        ensures
            is_type_id_of::<T>(r.type_id()),
    {
        EventId(type_id_of::<T>())
    }

    /// Whether the two ids are the same.
    pub fn same(&self, other: &EventId) -> (r: bool)
        ensures
            r == (*self == *other),
    {
        type_id_eq(&self.0, &other.0)
    }
}

/// The buffers of one event type: the events sent this tick and those sent the tick before.
#[derive(Debug, Clone)]
pub struct Events<T: Event> {
    current: Vec<T>,
    previous: Vec<T>,
}

impl<T: Event> Events<T> {
    /// The events sent this tick.
    pub closed spec fn current(&self) -> Seq<T> {
        self.current@
    }

    /// The events sent the tick before.
    pub closed spec fn previous(&self) -> Seq<T> {
        self.previous@
    }

    /// Creates empty buffers.
    pub fn new() -> (r: Events<T>)
        ensures
            r.current() == Seq::<T>::empty(),
            r.previous() == Seq::<T>::empty(),
    {
        Events { current: Vec::new(), previous: Vec::new() }
    }
}

impl<T: Event> Default for Events<T> {
    fn default() -> (r: Events<T>)
        ensures
            r.current() == Seq::<T>::empty(),
            r.previous() == Seq::<T>::empty(),
    {
        Events::new()
    }
}

/// A system parameter that reads the events of type `T`.
pub struct EventReader<'a, T: Event> {
    _marker: PhantomData<&'a T>,
}

/// A system parameter that sends events of type `T`.
pub struct EventWriter<'a, T: Event> {
    _marker: PhantomData<&'a mut T>,
}

} // verus!

//! System-local data: state that persists between ticks but belongs to one system.

use vstd::prelude::*;

verus! {

/// The stored state of a `Local` parameter.
pub struct LocalState<T: Default + Send + 'static>(T);

impl<T: Default + Send + 'static> LocalState<T> {
    /// The stored value.
    pub closed spec fn view(&self) -> T {
        self.0
    }

    /// Creates the state from the type's default value.
    pub fn init() -> (r: LocalState<T>)
        ensures
            call_ensures(T::default, (), r@),
    {
        LocalState(T::default())
    }

    /// Hands the stored value to the system for this run.
    pub fn fetch(&mut self) -> (r: Local<'_, T>)
        ensures
            *r.0 == old(self)@,
            final(self)@ == *final(r.0),
    {
        Local(&mut self.0)
    }
}

/// A piece of data local to a system: it persists between ticks but only that system uses it.
pub struct Local<'s, T: Default + Send + 'static>(pub &'s mut T);

impl<'s, T: Default + Send + 'static> Local<'s, T> {
    /// The value.
    pub fn get(&self) -> (r: &T)
        ensures
            *r == *old(self.0),
    {
        self.0
    }
}

} // verus!

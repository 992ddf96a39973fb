//! Change tracking: the ticks at which the components of each row were added and last changed.

use vstd::prelude::*;

verus! {

/// The tick at which each row's component was added, and the tick at which it last changed.
#[derive(Debug, Default)]
pub struct ChangeTracker {
    added: Vec<u32>,
    changed: Vec<u32>,
}

impl ChangeTracker {
    /// The tick at which each row was added.
    pub closed spec fn added_ticks(&self) -> Seq<u32> {
        self.added@
    }

    /// The tick at which each row last changed.
    pub closed spec fn changed_ticks(&self) -> Seq<u32> {
        self.changed@
    }

    /// Creates a tracker without rows.
    pub fn new() -> (r: ChangeTracker)
        ensures
            r.added_ticks() == Seq::<u32>::empty(),
            r.changed_ticks() == Seq::<u32>::empty(),
    {
        ChangeTracker { added: Vec::new(), changed: Vec::new() }
    }

    /// Records that row `index` changed at `tick`.
    pub fn set_changed(&mut self, index: usize, tick: u32)
        requires
            index < old(self).changed_ticks().len(),
        ensures
            final(self).changed_ticks() == old(self).changed_ticks().update(index as int, tick),
            final(self).added_ticks() == old(self).added_ticks(),
    {
        self.changed.set(index, tick);
    }

    /// Whether row `index` was added at or after `last_run`.
    pub fn added_since(&self, index: usize, last_run: u32) -> (r: bool)
        requires
            index < self.added_ticks().len(),
        ensures
            r == (self.added_ticks()[index as int] >= last_run),
    {
        self.added[index] >= last_run
    }
}

/// Shared access to a component.
pub struct Ref<'w, T> {
    pub(crate) inner: &'w T,
}

impl<'w, T> Ref<'w, T> {
    /// The component.
    pub closed spec fn view(&self) -> T {
        *self.inner
    }

    /// Shares a component.
    pub fn new(inner: &'w T) -> (r: Ref<'w, T>)
        ensures
            r@ == *inner,
    {
        Ref { inner }
    }

    /// The component.
    pub fn get(&self) -> (r: &T)
        ensures
            *r == self@,
    {
        self.inner
    }
}

/// Exclusive access to a component whose changes are recorded in a tracker at row `index`.
pub struct Mut<'w, T> {
    pub(crate) index: usize,
    pub(crate) inner: &'w mut T,
}

} // verus!

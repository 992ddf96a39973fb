//! Ticks: the world's frame counter as seen by a system.

use vstd::prelude::*;

verus! {

/// A tick of the world.
#[derive(Debug, Copy, Clone, PartialEq, Eq, Structural, PartialOrd, Ord, Hash)]
pub struct Tick(pub(crate) u32);

impl Tick {
    /// The tick's number.
    pub closed spec fn view(&self) -> u32 {
        self.0
    }

    /// The tick's number.
    pub fn get(&self) -> (r: u32)
        ensures
            r == self@,
    {
        self.0
    }
}

/// The ticks at which a system runs now and ran last.
#[derive(Debug, Copy, Clone, PartialEq, Eq, Structural, PartialOrd, Ord, Hash)]
pub struct SystemTick {
    this_run: Tick,
    last_run: Tick,
}

impl SystemTick {
    /// The tick of the current run.
    pub closed spec fn now(&self) -> u32 {
        self.this_run.0
    }

    /// The tick of the previous run.
    pub closed spec fn before(&self) -> u32 {
        self.last_run.0
    }

    /// The state of a system that has not run yet, in a world at tick `current_tick`: it has
    /// last run at tick 0.
    pub fn init(current_tick: u32) -> (r: SystemTick)
        ensures
            r.now() == current_tick,
            r.before() == 0,
    {
        SystemTick { last_run: Tick(0), this_run: Tick(current_tick) }
    }

    /// Starts a run at tick `current_tick`: the tick of the run that is ending becomes the last
    /// run. Returns the new state.
    pub fn fetch(&mut self, current_tick: u32) -> (r: SystemTick)
        ensures
            final(self).before() == old(self).now(),
            final(self).now() == current_tick,
            r == *final(self),
    {
        self.last_run = self.this_run;
        self.this_run = Tick(current_tick);
        *self
    }

    /// The tick of the current run.
    pub fn this_run(&self) -> (r: Tick)
        ensures
            r@ == self.now(),
    {
        self.this_run
    }

    /// The tick of the previous run.
    pub fn last_run(&self) -> (r: Tick)
        ensures
            r@ == self.before(),
    {
        self.last_run
    }
}

} // verus!

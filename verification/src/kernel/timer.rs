//! The timer's tick count.
use vstd::prelude::*;
use crate::shell::system::{status_clock, tick_status};

verus! {

/// Timer interrupts since boot.
pub struct Timer {
    ticks: u64,
}

impl Timer {
    pub closed spec fn ticks_spec(&self) -> u64 {
        self.ticks
    }

    pub fn new() -> (t: Timer)
        ensures
            t.ticks_spec() == 0,
    {
        Timer { ticks: 0 }
    }

    pub fn ticks(&self) -> (r: u64)
        ensures
            r == self.ticks_spec(),
    {
        self.ticks
    }

    /// Counts one interrupt, wrapping as an atomic add does; on each whole
    /// second, the clock text for the status bar.
    pub fn tick(&mut self) -> (r: Option<Vec<u8>>)
        ensures
            final(self).ticks_spec() == if old(self).ticks_spec() == u64::MAX { 0 } else { (old(self).ticks_spec() + 1) as u64 },
            match status_clock(final(self).ticks_spec() as nat) {
                Some(s) => r matches Some(v) && v@ == s,
                None => r is None,
            },
    {
        self.ticks = if self.ticks == u64::MAX { 0 } else { self.ticks + 1 };
        tick_status(self.ticks)
    }
}

} // verus!

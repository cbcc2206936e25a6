//! Spans of time.

use vstd::prelude::*;

verus! {

/// A span of time: whole seconds, and nanoseconds below one second.
#[derive(Debug, Clone, Copy, PartialEq, Eq, Structural)]
pub struct Duration {
    pub secs: u64,
    pub nanos: u32,
}

impl Duration {
    /// Whole seconds.
    pub fn from_secs(secs: u64) -> (r: Self)
        ensures
            r == (Duration { secs, nanos: 0 }),
    {
        Duration { secs, nanos: 0 }
    }

    /// Whole milliseconds.
    pub fn from_millis(millis: u64) -> (r: Self)
        ensures
            r.total_nanos() == millis * 1_000_000,
            r.nanos < 1_000_000_000,
    {
        Duration { secs: millis / 1000, nanos: (millis % 1000) as u32 * 1_000_000 }
    }

    /// Whether a span is what a clock gives: less than a second of nanoseconds.
    pub open spec fn is_normal(self) -> bool {
        self.nanos < 1_000_000_000
    }

    /// How much later than another reading of the same clock this one is, and
    /// nothing if it is not later.
    pub fn since(&self, earlier: &Duration) -> (r: Self)
        requires
            self.is_normal(),
            earlier.is_normal(),
        ensures
            r.is_normal(),
            r.total_nanos() == if self.total_nanos() > earlier.total_nanos() {
                self.total_nanos() - earlier.total_nanos()
            } else {
                0
            },
    {
        if self.secs < earlier.secs || (self.secs == earlier.secs && self.nanos <= earlier.nanos) {
            Duration { secs: 0, nanos: 0 }
        } else if self.nanos >= earlier.nanos {
            Duration { secs: self.secs - earlier.secs, nanos: self.nanos - earlier.nanos }
        } else {
            Duration { secs: self.secs - earlier.secs - 1, nanos: self.nanos + 1_000_000_000 - earlier.nanos }
        }
    }

    /// The span in nanoseconds.
    pub open spec fn total_nanos(self) -> int {
        self.secs * 1_000_000_000 + self.nanos
    }
}

/// No time at all.
pub open spec fn no_time() -> Duration {
    Duration { secs: 0, nanos: 0 }
}

} // verus!

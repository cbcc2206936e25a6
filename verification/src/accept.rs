//! What an accept loop does next.

use vstd::prelude::*;

use crate::time::Duration;

verus! {

/// What waiting for a connection gave.
#[derive(Debug, Clone, Copy, PartialEq, Eq, Structural)]
pub enum Accepted {
    Connection,
    /// the connection was gone before it could be accepted
    Aborted,
    /// any other error
    Failed,
    /// the loop is told to stop
    Shutdown,
}

/// What to do about it.
#[derive(Debug, Clone, Copy, PartialEq, Eq, Structural)]
pub enum AcceptStep {
    Serve,
    Retry,
    RetryAfter(Duration),
    Stop,
}

/// A relay listener serves what it accepts, passes over an aborted connection,
/// and ends with any other error.
pub fn relay_step(accepted: Accepted) -> (r: AcceptStep)
    ensures
        accepted is Connection ==> r is Serve,
        accepted is Aborted ==> r is Retry,
        accepted is Failed || accepted is Shutdown ==> r is Stop,
{
    match accepted {
        Accepted::Connection => AcceptStep::Serve,
        Accepted::Aborted => AcceptStep::Retry,
        Accepted::Failed => AcceptStep::Stop,
        Accepted::Shutdown => AcceptStep::Stop,
    }
}

/// Shortest pause of the control plane after a failed accept, in milliseconds.
pub const BACKOFF_MIN: u64 = 5;

/// Longest pause of the control plane after a failed accept, in milliseconds.
pub const BACKOFF_MAX: u64 = 500;

/// The pause after one of `millis` that did not help.
pub open spec fn longer(millis: u64) -> u64 {
    if 2 * millis > BACKOFF_MAX {
        BACKOFF_MAX
    } else {
        (2 * millis) as u64
    }
}

/// The pause after so many failures in a row.
pub open spec fn pause(failures: nat) -> u64
    decreases failures,
{
    if failures == 0 {
        BACKOFF_MIN
    } else {
        longer(pause((failures - 1) as nat))
    }
}

/// Accept errors of the control plane must not spin the processor: an aborted
/// connection is retried at once, any other error backs off up to a cap, and the
/// next success resets it. The control plane never stops accepting on its own.
#[derive(Debug)]
pub struct Backoff {
    millis: u64,
}

impl Backoff {
    /// The next pause, in milliseconds.
    pub closed spec fn millis(&self) -> u64 {
        self.millis
    }

    pub open spec fn wf(&self) -> bool {
        BACKOFF_MIN <= self.millis() <= BACKOFF_MAX
    }

    /// No failure yet.
    pub fn new() -> (r: Self)
        ensures
            r.wf(),
            r.millis() == pause(0),
    {
        Backoff { millis: BACKOFF_MIN }
    }

    /// What to do, and how long to pause before it.
    pub fn step(&mut self, accepted: Accepted) -> (r: AcceptStep)
        requires
            old(self).wf(),
        ensures
            final(self).wf(),
            accepted is Connection ==> r is Serve && final(self).millis() == pause(0),
            accepted is Aborted ==> r is Retry && final(self).millis() == old(self).millis(),
            accepted is Failed ==> (r matches AcceptStep::RetryAfter(d) && d.total_nanos() == old(self).millis()
                * 1_000_000) && final(self).millis() == longer(old(self).millis()),
            accepted is Shutdown ==> r is Stop && final(self).millis() == old(self).millis(),
    {
        match accepted {
            Accepted::Connection => {
                self.millis = BACKOFF_MIN;
                AcceptStep::Serve
            },
            Accepted::Aborted => AcceptStep::Retry,
            Accepted::Failed => {
                let d = Duration::from_millis(self.millis);
                let twice: u64 = self.millis * 2;
                self.millis = if twice > BACKOFF_MAX {
                    BACKOFF_MAX
                } else {
                    twice
                };
                AcceptStep::RetryAfter(d)
            },
            Accepted::Shutdown => AcceptStep::Stop,
        }
    }
}

/// However often accepting fails, the pause stays between its bounds and never
/// gets shorter.
pub proof fn law_pause_is_bounded(failures: nat)
    ensures
        BACKOFF_MIN <= pause(failures) <= BACKOFF_MAX,
        pause(failures) <= pause(failures + 1),
    decreases failures,
{
    if failures > 0 {
        law_pause_is_bounded((failures - 1) as nat);
    }
}

} // verus!

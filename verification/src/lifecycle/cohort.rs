//! Connection cohorts.
//!
//! A cohort is the set of connections, or udp associations, that a single
//! generation of an endpoint is serving. It answers how many of them are still
//! alive and how long the cohort has been draining; when a drain deadline
//! expires they are terminated, and the cohort counts as drained only once every
//! one of them was released.

use vstd::prelude::*;

use crate::time::Duration;

verus! {

/// How a cohort reached the drained state.
#[derive(Debug, Clone, Copy, PartialEq, Eq, Structural)]
pub enum DrainOutcome {
    /// every connection ended on its own
    Finished,
    /// the deadline expired and this many connections were terminated
    Forced(usize),
}

/// A cohort. Times are readings of one clock.
#[derive(Debug)]
pub struct Cohort {
    count: usize,
    created: Duration,
    draining_since: Option<Duration>,
    cancelled: bool,
    forced: Option<usize>,
}

pub struct CohortView {
    /// connections that were registered and not released
    pub count: usize,
    pub created: Duration,
    /// when the cohort stopped taking new connections, if it has
    pub draining_since: Option<Duration>,
    /// whether its connections were told to end
    pub cancelled: bool,
    /// how many there were when the drain deadline expired, if it has
    pub forced: Option<usize>,
}

impl View for Cohort {
    type V = CohortView;

    closed spec fn view(&self) -> CohortView {
        CohortView {
            count: self.count,
            created: self.created,
            draining_since: self.draining_since,
            cancelled: self.cancelled,
            forced: self.forced,
        }
    }
}

/// What a drain waits for.
#[derive(Debug, Clone, Copy, PartialEq, Eq, Structural)]
pub enum DrainWait {
    /// until the cohort is empty, but no longer than this
    AtMost(Duration),
    /// until the cohort is empty
    Empty,
    /// nothing: it is over
    Over(DrainOutcome),
}

/// A cohort that started draining at the latest now.
pub open spec fn draining(c: CohortView, now: Duration) -> CohortView {
    CohortView {
        draining_since: match c.draining_since {
            Some(since) => Some(since),
            None => Some(now),
        },
        ..c
    }
}

/// A cohort whose connections were told to end.
pub open spec fn cancelled(c: CohortView, now: Duration) -> CohortView {
    CohortView { cancelled: true, ..draining(c, now) }
}

/// A cohort whose drain deadline expired.
pub open spec fn expired(c: CohortView, now: Duration) -> CohortView {
    match c.forced {
        Some(_) => c,
        None => CohortView { forced: Some(c.count), ..cancelled(c, now) },
    }
}

/// How the drain of a cohort ends once it is empty.
pub open spec fn drain_outcome(c: CohortView) -> DrainOutcome {
    match c.forced {
        Some(n) => DrainOutcome::Forced(n),
        None => DrainOutcome::Finished,
    }
}

/// What the drain of a cohort waits for.
pub open spec fn drain_wait(c: CohortView, timeout: Option<Duration>) -> DrainWait {
    if c.count == 0 {
        DrainWait::Over(drain_outcome(c))
    } else if c.forced is Some {
        DrainWait::Empty
    } else {
        match timeout {
            Some(t) => DrainWait::AtMost(t),
            None => DrainWait::Empty,
        }
    }
}

impl Cohort {
    /// An empty cohort.
    pub fn new(now: Duration) -> (r: Self)
        ensures
            r@ == (CohortView { count: 0, created: now, draining_since: None, cancelled: false, forced: None }),
    {
        Cohort { count: 0, created: now, draining_since: None, cancelled: false, forced: None }
    }

    /// Register a connection. It is to be released when its task has ended.
    pub fn register(&mut self)
        requires
            old(self)@.count < usize::MAX,
        ensures
            final(self)@ == (CohortView { count: (old(self)@.count + 1) as usize, ..old(self)@ }),
    {
        self.count = self.count + 1;
    }

    /// Release a connection.
    pub fn release(&mut self)
        requires
            old(self)@.count > 0,
        ensures
            final(self)@ == (CohortView { count: (old(self)@.count - 1) as usize, ..old(self)@ }),
    {
        self.count = self.count - 1;
    }

    /// Number of connections currently alive in this cohort.
    pub fn count(&self) -> (r: usize)
        ensures
            r == self@.count,
    {
        self.count
    }

    /// Whether the connections of this cohort were told to end.
    pub fn is_cancelled(&self) -> (r: bool)
        ensures
            r == self@.cancelled,
    {
        self.cancelled
    }

    /// How long this cohort has existed.
    pub fn age(&self, now: Duration) -> (r: Duration)
        requires
            now.is_normal(),
            self@.created.is_normal(),
        ensures
            r.is_normal(),
            r.total_nanos() == if now.total_nanos() > self@.created.total_nanos() {
                now.total_nanos() - self@.created.total_nanos()
            } else {
                0
            },
    {
        now.since(&self.created)
    }

    /// How long this cohort has been draining, if it is.
    pub fn draining_for(&self, now: Duration) -> (r: Option<Duration>)
        requires
            now.is_normal(),
            self@.draining_since matches Some(since) ==> since.is_normal(),
        ensures
            r is Some == self@.draining_since is Some,
            r matches Some(d) ==> d.is_normal() && d.total_nanos() == if now.total_nanos()
                > self@.draining_since->0.total_nanos() {
                now.total_nanos() - self@.draining_since->0.total_nanos()
            } else {
                0
            },
    {
        match &self.draining_since {
            Some(since) => Some(now.since(since)),
            None => None,
        }
    }

    /// Mark the cohort as draining: existing connections are left to finish
    /// naturally.
    pub fn start_draining(&mut self, now: Duration)
        ensures
            final(self)@ == draining(old(self)@, now),
    {
        if self.draining_since.is_none() {
            self.draining_since = Some(now);
        }
    }

    /// Tell every connection of this cohort to end.
    pub fn cancel(&mut self, now: Duration)
        ensures
            final(self)@ == cancelled(old(self)@, now),
    {
        self.start_draining(now);
        self.cancelled = true;
    }

    /// Drain with a deadline: connections get up to `timeout` to finish
    /// naturally. No deadline waits indefinitely, which is the default for a
    /// configuration change.
    pub fn drain(&mut self, timeout: Option<Duration>, now: Duration) -> (r: DrainWait)
        ensures
            final(self)@ == draining(old(self)@, now),
            r == drain_wait(draining(old(self)@, now), timeout),
    {
        self.start_draining(now);
        self.drained(timeout)
    }

    /// What the drain waits for now.
    pub fn drained(&self, timeout: Option<Duration>) -> (r: DrainWait)
        ensures
            r == drain_wait(self@, timeout),
    {
        if self.count == 0 {
            match self.forced {
                Some(n) => DrainWait::Over(DrainOutcome::Forced(n)),
                None => DrainWait::Over(DrainOutcome::Finished),
            }
        } else if self.forced.is_some() {
            DrainWait::Empty
        } else {
            match timeout {
                Some(t) => DrainWait::AtMost(t),
                None => DrainWait::Empty,
            }
        }
    }

    /// The deadline of the drain expired: the rest is told to end.
    pub fn expire(&mut self, now: Duration)
        ensures
            final(self)@ == expired(old(self)@, now),
    {
        if self.forced.is_none() {
            let n: usize = self.count;
            self.cancel(now);
            self.forced = Some(n);
        }
    }
}

/// A cohort is drained only once every connection was released, whether they
/// were told to end or not.
pub proof fn law_drained_means_released(c: CohortView, timeout: Option<Duration>, now: Duration)
    ensures
        drain_wait(c, timeout) is Over <==> c.count == 0,
        drain_wait(expired(c, now), timeout) is Over <==> c.count == 0,
        drain_wait(cancelled(c, now), timeout) is Over <==> c.count == 0,
{
}

/// Without a deadline a drain never ends a connection, and an expired deadline
/// ends every one that is left and is reported as such.
pub proof fn law_only_a_deadline_ends_connections(c: CohortView, now: Duration, timeout: Duration)
    requires
        !c.cancelled,
        c.forced is None,
    ensures
        !draining(c, now).cancelled,
        !(drain_wait(draining(c, now), None) is AtMost),
        expired(c, now).cancelled,
        c.count > 0 ==> drain_wait(draining(c, now), Some(timeout)) == DrainWait::AtMost(timeout),
        drain_outcome(expired(c, now)) == DrainOutcome::Forced(c.count),
        drain_outcome(draining(c, now)) == DrainOutcome::Finished,
{
}

/// A drain that has begun keeps its beginning.
pub proof fn law_drain_keeps_its_beginning(c: CohortView, first: Duration, later: Duration)
    ensures
        draining(draining(c, first), later) == draining(c, first),
        cancelled(draining(c, first), later).draining_since == draining(c, first).draining_since,
        expired(draining(c, first), later).draining_since == draining(c, first).draining_since,
{
}

} // verus!

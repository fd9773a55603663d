//! Time as plain nanosecond counts.
//!
//! Every decision in the library that depends on time takes the current
//! [`Instant`] as an argument, so the outcome is a function of what is passed in
//! and nothing here ever reads a clock.

use vstd::prelude::*;

verus! {

/// Nanoseconds in one second.
pub const NANOS_PER_SEC: u128 = 1_000_000_000;

/// Nanoseconds in one millisecond.
pub const NANOS_PER_MILLI: u128 = 1_000_000;

/// A span of time.
#[derive(Clone, Copy, Debug, PartialEq, Eq, Structural)]
pub struct Duration {
    pub nanos: u128,
}

/// A point on a monotonic clock, counted from an origin of the caller's choice.
#[derive(Clone, Copy, Debug, PartialEq, Eq, Structural)]
pub struct Instant {
    pub nanos: u128,
}

impl Duration {
    /// A span of whole seconds.
    pub fn from_secs(secs: u64) -> (d: Duration)
        ensures
            d.nanos == secs * NANOS_PER_SEC,
    {
        assert(secs * 1_000_000_000 <= u64::MAX * 1_000_000_000);
        Duration { nanos: secs as u128 * NANOS_PER_SEC }
    }

    /// A span of whole milliseconds.
    pub fn from_millis(millis: u64) -> (d: Duration)
        ensures
            d.nanos == millis * NANOS_PER_MILLI,
    {
        assert(millis * 1_000_000 <= u64::MAX * 1_000_000);
        Duration { nanos: millis as u128 * NANOS_PER_MILLI }
    }
}

impl Instant {
    /// The instant `d` later than this one; an instant past the end of the clock
    /// is the end of the clock.
    pub fn plus(self, d: Duration) -> (later: Instant)
        ensures
            later.nanos == if self.nanos + d.nanos > u128::MAX {
                u128::MAX as int
            } else {
                self.nanos + d.nanos
            },
    {
        Instant { nanos: self.nanos.saturating_add(d.nanos) }
    }

    /// How long after `earlier` this instant is: zero when it is not after it.
    pub open spec fn since(self, earlier: Instant) -> int {
        if self.nanos >= earlier.nanos {
            self.nanos - earlier.nanos
        } else {
            0
        }
    }

    /// Executable form of [`Instant::since`].
    pub fn saturating_duration_since(self, earlier: Instant) -> (d: Duration)
        ensures
            d.nanos == self.since(earlier),
    {
        Duration { nanos: self.nanos.saturating_sub(earlier.nanos) }
    }
}

/// Whole seconds covering `nanos`, rounded up and capped at what a `u64` holds.
pub open spec fn whole_secs(nanos: int) -> int {
    let up = (nanos + NANOS_PER_SEC - 1) / NANOS_PER_SEC as int;
    if up > u64::MAX {
        u64::MAX as int
    } else {
        up
    }
}

/// Whole seconds rounded up, so that a reported wait never tells a client to come
/// back before there is capacity.
pub fn ceil_secs(d: Duration) -> (secs: u64)
    ensures
        secs == whole_secs(d.nanos as int),
        secs == u64::MAX || secs * NANOS_PER_SEC >= d.nanos,
        secs * NANOS_PER_SEC < d.nanos + NANOS_PER_SEC,
{
    let full: u128 = d.nanos / NANOS_PER_SEC;
    let rest: u128 = d.nanos % NANOS_PER_SEC;
    let up: u128 = if rest > 0 {
        full + 1
    } else {
        full
    };
    if up > u64::MAX as u128 {
        u64::MAX
    } else {
        up as u64
    }
}

/// A wait is reported as at least one second.
pub open spec fn at_least_one(secs: int) -> int {
    if secs < 1 {
        1
    } else {
        secs
    }
}

/// Law: a wait in seconds is the least whole number of them that covers it, as far as
/// 64 bits can say.
pub proof fn law_whole_secs(nanos: int)
    requires
        0 <= nanos,
    ensures
        whole_secs(nanos) <= u64::MAX,
        whole_secs(nanos) * 1_000_000_000 < nanos + 1_000_000_000,
        whole_secs(nanos) == u64::MAX || whole_secs(nanos) * 1_000_000_000 >= nanos,
        at_least_one(whole_secs(nanos)) >= 1,
        nanos > 0 ==> at_least_one(whole_secs(nanos)) == whole_secs(nanos),
{
}

/// Law: the time between two instants is what brings one to the other; there is none
/// before the earlier.
pub proof fn law_since(earlier: Instant, later: Instant)
    requires
        earlier.nanos <= later.nanos,
    ensures
        earlier.nanos + later.since(earlier) == later.nanos,
        earlier.since(later) == 0,
{
}

} // verus!

//! Per-target circuit breaker.
//!
//! * **Closed**: failures are counted within a window that opens with the first
//!   counted failure; at `threshold` failures the breaker trips to **Open**.
//! * **Open**: every request is rejected until `cooldown` has passed since the
//!   trip; then the next request goes through as a single trial (**Half-open**).
//! * **Half-open**: exactly one trial request is out and every other request is
//!   rejected. Its success closes the breaker, its failure opens it again with a
//!   fresh cooldown.
//!
//! The window is an approximation of a rolling one: it can under-count a burst
//! that straddles its end, which only makes the breaker more lenient. It never
//! trips unless `threshold` failures fell within `window`.

use vstd::prelude::*;

use crate::clock::{at_least_one, ceil_secs, whole_secs, Duration, Instant};
use crate::config::CircuitBreaker;

verus! {

/// A breaker's policy.
#[derive(Clone, Copy, Debug, PartialEq, Eq, Structural)]
pub struct CircuitConfig {
    pub threshold: u32,
    pub window: Duration,
    pub cooldown: Duration,
}

/// The policy for a configured breaker. A threshold of zero would trip before any
/// failure, so it counts as one.
pub open spec fn policy(cb: CircuitBreaker) -> CircuitConfig {
    CircuitConfig {
        threshold: if cb.threshold < 1 {
            1
        } else {
            cb.threshold
        },
        window: cb.window,
        cooldown: cb.cooldown,
    }
}

/// Where a breaker stands.
#[derive(Clone, Copy, Debug, PartialEq, Eq, Structural)]
pub enum State {
    /// `failures` counted since `window_start`, which is the first of them.
    Closed { failures: u32, window_start: Instant },
    Open { opened_at: Instant },
    HalfOpen,
}

/// What a breaker says to a request.
#[derive(Clone, Copy, Debug, PartialEq, Eq, Structural)]
pub enum Allow {
    /// Closed: proceed.
    Permit,
    /// Proceed as the single trial that decides whether the breaker closes.
    PermitProbe,
    /// Do not contact the target. `retry_after` is whole seconds until the cooldown
    /// is expected to be over.
    Reject { retry_after: u64 },
}

/// A per-target circuit breaker. Without a policy it is inert: it always permits
/// and records nothing.
#[derive(Clone, Copy, Debug, PartialEq, Eq, Structural)]
pub struct Breaker {
    pub config: Option<CircuitConfig>,
    pub state: State,
}

/// A closed breaker with nothing counted, under that policy if there is one.
pub open spec fn fresh_breaker(cb: Option<CircuitBreaker>) -> Breaker {
    Breaker {
        config: match cb {
            Some(c) => Some(policy(c)),
            None => None,
        },
        state: State::Closed { failures: 0, window_start: Instant { nanos: 0 } },
    }
}

impl Breaker {
    /// The invariant: a closed breaker has counted fewer failures than would trip
    /// it.
    pub open spec fn valid(self) -> bool {
        match self.config {
            Some(cfg) => {
                &&& cfg.threshold >= 1
                &&& self.state matches State::Closed { failures, .. } ==> failures < cfg.threshold
            },
            None => true,
        }
    }

    /// What the breaker says at `now`.
    pub open spec fn verdict(self, now: Instant) -> Allow {
        match (self.config, self.state) {
            (None, _) => Allow::Permit,
            (Some(_), State::Closed { .. }) => Allow::Permit,
            (Some(cfg), State::Open { opened_at }) => if now.since(opened_at)
                >= cfg.cooldown.nanos {
                Allow::PermitProbe
            } else {
                Allow::Reject {
                    retry_after: at_least_one(
                        whole_secs(cfg.cooldown.nanos - now.since(opened_at)),
                    ) as u64,
                }
            },
            (Some(_), State::HalfOpen) => Allow::Reject { retry_after: 1 },
        }
    }

    /// Whether a request may proceed at `now`.
    pub open spec fn permits(self, now: Instant) -> bool {
        self.verdict(now) !is Reject
    }

    /// The breaker after it has answered a request at `now`: a granted trial takes
    /// the single slot, and any other answer changes nothing.
    pub open spec fn asked(self, now: Instant) -> Breaker {
        if self.verdict(now) is PermitProbe {
            Breaker { state: State::HalfOpen, ..self }
        } else {
            self
        }
    }

    /// The breaker after a success at `now`.
    pub open spec fn succeeded(self, now: Instant) -> Breaker {
        if self.config is None || self.state is Closed {
            self
        } else {
            Breaker { state: State::Closed { failures: 0, window_start: now }, ..self }
        }
    }

    /// The breaker after a failure at `now`.
    pub open spec fn failed(self, now: Instant) -> Breaker {
        match (self.config, self.state) {
            (None, _) => self,
            (Some(_), State::Open { .. }) => self,
            (Some(_), State::HalfOpen) => Breaker { state: State::Open { opened_at: now }, ..self },
            (Some(cfg), State::Closed { failures, window_start }) => {
                let fresh = failures == 0 || now.since(window_start) >= cfg.window.nanos;
                let count = if fresh {
                    1
                } else {
                    failures + 1
                };
                if count >= cfg.threshold {
                    Breaker { state: State::Open { opened_at: now }, ..self }
                } else {
                    Breaker {
                        state: State::Closed {
                            failures: count as u32,
                            window_start: if fresh {
                                now
                            } else {
                                window_start
                            },
                        },
                        ..self
                    }
                }
            },
        }
    }

    /// Build a breaker for a target, closed and with nothing counted. `None` yields
    /// an inert breaker.
    pub fn new(cb: Option<&CircuitBreaker>) -> (b: Breaker)
        ensures
            b == fresh_breaker(
                match cb {
                    Some(c) => Some(*c),
                    None => None,
                },
            ),
            b.valid(),
    {
        Breaker {
            config: match cb {
                Some(c) => Some(
                    CircuitConfig {
                        threshold: if c.threshold < 1 {
                            1
                        } else {
                            c.threshold
                        },
                        window: c.window,
                        cooldown: c.cooldown,
                    },
                ),
                None => None,
            },
            state: State::Closed { failures: 0, window_start: Instant { nanos: 0 } },
        }
    }

    /// Decide whether a request may proceed. An open breaker whose cooldown is over
    /// grants the single trial slot, so this is to be asked only for a target that
    /// is about to be used.
    pub fn allow(&mut self, now: Instant) -> (a: Allow)
        requires
            old(self).valid(),
        ensures
            a == old(self).verdict(now),
            *final(self) == old(self).asked(now),
            final(self).valid(),
    {
        let cfg = match self.config {
            Some(c) => c,
            None => {
                return Allow::Permit;
            },
        };
        match self.state {
            State::Closed { .. } => Allow::Permit,
            State::Open { opened_at } => {
                let elapsed = now.saturating_duration_since(opened_at);
                if elapsed.nanos >= cfg.cooldown.nanos {
                    self.state = State::HalfOpen;
                    Allow::PermitProbe
                } else {
                    let left = Duration { nanos: cfg.cooldown.nanos - elapsed.nanos };
                    let secs: u64 = ceil_secs(left);
                    Allow::Reject {
                        retry_after: if secs < 1 {
                            1
                        } else {
                            secs
                        },
                    }
                }
            },
            State::HalfOpen => Allow::Reject { retry_after: 1 },
        }
    }

    /// Record a success. In half-open the trial has passed and the breaker closes
    /// with nothing counted. In closed a success does **not** clear the count: a
    /// target that fails every other request must still trip. Failures age out by
    /// time instead.
    pub fn record_success(&mut self, now: Instant)
        requires
            old(self).valid(),
        ensures
            *final(self) == old(self).succeeded(now),
            final(self).valid(),
    {
        if self.config.is_none() {
            return ;
        }
        match self.state {
            State::Closed { .. } => {},
            _ => {
                self.state = State::Closed { failures: 0, window_start: now };
            },
        }
    }

    /// Record a failure (a 5xx, a timeout or a connection error). In closed it adds
    /// to the count, which may trip the breaker; in half-open the trial has failed.
    pub fn record_failure(&mut self, now: Instant)
        requires
            old(self).valid(),
        ensures
            *final(self) == old(self).failed(now),
            final(self).valid(),
    {
        let cfg = match self.config {
            Some(c) => c,
            None => {
                return ;
            },
        };
        match self.state {
            State::Closed { failures, window_start } => {
                let fresh: bool = failures == 0 || now.saturating_duration_since(window_start).nanos
                    >= cfg.window.nanos;
                let count: u32 = if fresh {
                    1
                } else {
                    failures + 1
                };
                if count >= cfg.threshold {
                    self.state = State::Open { opened_at: now };
                } else {
                    self.state = State::Closed {
                        failures: count,
                        window_start: if fresh {
                            now
                        } else {
                            window_start
                        },
                    };
                }
            },
            State::HalfOpen => {
                self.state = State::Open { opened_at: now };
            },
            State::Open { .. } => {},
        }
    }

    /// Is the breaker closed?
    pub fn is_closed(&self) -> (r: bool)
        ensures
            r == (self.state is Closed),
    {
        match self.state {
            State::Closed { .. } => true,
            _ => false,
        }
    }
}

/// The breaker after failures at those times, with a success somewhere between any
/// of them or not: a success does not change a closed breaker.
pub open spec fn after_failures(b: Breaker, times: Seq<Instant>) -> Breaker
    decreases times.len(),
{
    if times.len() == 0 {
        b
    } else {
        after_failures(b, times.drop_last()).failed(times.last())
    }
}

/// Law: an inert breaker never rejects, whatever happens to it.
pub proof fn law_inert_never_trips(b: Breaker, now: Instant)
    requires
        b.config is None,
    ensures
        b.verdict(now) == Allow::Permit,
        b.asked(now) == b,
        b.failed(now) == b,
        b.succeeded(now) == b,
{
}

/// Law: a success between failures does not reset a closed breaker's count.
pub proof fn law_success_keeps_the_count(b: Breaker, now: Instant)
    requires
        b.state is Closed,
    ensures
        b.succeeded(now) == b,
{
}

/// Law: as many failures as the threshold, all within the window of the first, trip
/// a fresh breaker, and no fewer do.
pub proof fn law_trips_at_threshold(b: Breaker, times: Seq<Instant>)
    requires
        b.valid(),
        b.config is Some,
        b.state is Closed && b.state->failures == 0,
        forall|i: int|
            0 <= i < times.len() ==> (#[trigger] times[i]).since(times[0])
                < b.config->0.window.nanos,
        times.len() <= b.config->0.threshold,
    ensures
        after_failures(b, times).state is Open <==> times.len() == b.config->0.threshold,
        after_failures(b, times).state is Closed <==> times.len() < b.config->0.threshold,
{
    lemma_counts(b, times);
}

proof fn lemma_counts(b: Breaker, times: Seq<Instant>)
    requires
        b.valid(),
        b.config is Some,
        b.state is Closed && b.state->failures == 0,
        forall|i: int|
            0 <= i < times.len() ==> (#[trigger] times[i]).since(times[0])
                < b.config->0.window.nanos,
        times.len() <= b.config->0.threshold,
    ensures
        after_failures(b, times).config == b.config,
        times.len() == b.config->0.threshold ==> after_failures(b, times).state == (State::Open {
            opened_at: times.last(),
        }),
        times.len() < b.config->0.threshold ==> after_failures(b, times).state is Closed
            && after_failures(b, times).state->failures == times.len(),
        0 < times.len() < b.config->0.threshold ==> after_failures(b, times).state->window_start
            == times[0],
    decreases times.len(),
{
    if times.len() > 0 {
        let front = times.drop_last();
        assert forall|i: int| 0 <= i < front.len() implies (#[trigger] front[i]).since(front[0])
            < b.config->0.window.nanos by {
            assert(times[i].since(times[0]) < b.config->0.window.nanos);
        }
        lemma_counts(b, front);
        assert(times[times.len() - 1].since(times[0]) < b.config->0.window.nanos);
    }
}

/// Law: a breaker never trips spuriously. When the last of the failures since it
/// closed with nothing counted trips it, the last `threshold` of them fell within
/// `window`.
pub proof fn law_no_spurious_trip(b: Breaker, times: Seq<Instant>)
    requires
        b.valid(),
        b.config is Some,
        b.state is Closed && b.state->failures == 0,
        times.len() > 0,
        after_failures(b, times.drop_last()).state is Closed,
        after_failures(b, times).state is Open,
    ensures
        ({
            let threshold = b.config->0.threshold;
            &&& times.len() >= threshold
            &&& threshold > 1 ==> times.last().since(times[times.len() - threshold])
                < b.config->0.window.nanos
        }),
{
    lemma_window_start(b, times.drop_last());
}

proof fn lemma_window_start(b: Breaker, times: Seq<Instant>)
    requires
        b.valid(),
        b.config is Some,
        b.state is Closed && b.state->failures == 0,
    ensures
        after_failures(b, times).config == b.config,
        after_failures(b, times).valid(),
        after_failures(b, times).state matches State::Closed { failures, window_start } ==> failures
            <= times.len() && (failures > 0 ==> window_start == times[times.len() - failures]),
    decreases times.len(),
{
    if times.len() > 0 {
        lemma_window_start(b, times.drop_last());
    }
}

/// Law: while an open breaker's cooldown runs, nothing gets through, and the wait it
/// reports is at least one second, never ends before the cooldown does (as far as
/// 64 bits can say), and never grows as time goes on.
pub proof fn law_open_rejects_until_cooldown(b: Breaker, sooner: Instant, later: Instant)
    requires
        b.config is Some,
        b.state is Open,
        sooner.nanos <= later.nanos,
        later.since(b.state->opened_at) < b.config->0.cooldown.nanos,
    ensures
        b.verdict(sooner) is Reject,
        b.verdict(later) is Reject,
        b.verdict(later)->retry_after >= 1,
        b.verdict(later)->retry_after <= b.verdict(sooner)->retry_after,
        b.verdict(later)->retry_after == u64::MAX || b.verdict(later)->retry_after
            * crate::clock::NANOS_PER_SEC >= b.config->0.cooldown.nanos - later.since(
            b.state->opened_at,
        ),
{
}

/// Law: once the cooldown is over exactly one request gets through; the next is
/// rejected while that trial is out.
pub proof fn law_single_probe(b: Breaker, now: Instant, next: Instant)
    requires
        b.config is Some,
        b.state is Open,
        now.since(b.state->opened_at) >= b.config->0.cooldown.nanos,
    ensures
        b.verdict(now) == Allow::PermitProbe,
        b.asked(now).state is HalfOpen,
        b.asked(now).verdict(next) == (Allow::Reject { retry_after: 1 }),
        b.asked(now).succeeded(next).state == (State::Closed { failures: 0, window_start: next }),
        b.asked(now).failed(next).state == (State::Open { opened_at: next }),
{
}

/// Law: a configured breaker does what its configuration says. It starts closed; as
/// many failures as its threshold, all within its window, open it and no fewer do (a
/// threshold of zero counts as one); and it lets nothing through for its cooldown and
/// a trial after that.
pub proof fn law_configuration_is_kept(cb: CircuitBreaker, times: Seq<Instant>, now: Instant)
    requires
        times.len() > 0,
        times.len() <= cb.threshold || times.len() == 1,
        forall|i: int|
            0 <= i < times.len() ==> (#[trigger] times[i]).since(times[0]) < cb.window.nanos,
    ensures
        fresh_breaker(Some(cb)).verdict(now) == Allow::Permit,
        fresh_breaker(None).verdict(now) == Allow::Permit,
        ({
            let b = after_failures(fresh_breaker(Some(cb)), times);
            let tripped = times.len() >= cb.threshold;
            &&& !tripped ==> b.verdict(now) == Allow::Permit
            &&& tripped && times.last().nanos <= now.nanos < times.last().nanos + cb.cooldown.nanos
                ==> b.verdict(now) is Reject
            &&& tripped && now.nanos >= times.last().nanos + cb.cooldown.nanos ==> b.verdict(now)
                == Allow::PermitProbe
        }),
{
    lemma_counts(fresh_breaker(Some(cb)), times);
}

/// Law: the wait an open breaker reports is what is left of the cooldown, in seconds
/// rounded up, and at least one.
pub proof fn law_wait_is_what_is_left(b: Breaker, now: Instant)
    requires
        b.config is Some,
        b.state is Open,
        b.state->opened_at.nanos <= now.nanos,
        now.nanos < b.state->opened_at.nanos + b.config->0.cooldown.nanos,
        b.config->0.cooldown.nanos < u64::MAX * 1_000_000_000,
    ensures
        ({
            let left = b.state->opened_at.nanos + b.config->0.cooldown.nanos - now.nanos;
            b.verdict(now) matches Allow::Reject { retry_after } && retry_after * 1_000_000_000
                >= left && (retry_after - 1) * 1_000_000_000 < left
        }),
{
}

/// Law: failures age out. One that comes a window or more after the first that was
/// counted is counted as the first again.
pub proof fn law_failures_age_out(b: Breaker, now: Instant)
    requires
        b.config is Some,
        b.state is Closed,
        b.config->0.threshold > 1,
        now.nanos >= b.state->window_start.nanos + b.config->0.window.nanos,
    ensures
        b.failed(now).state == (State::Closed { failures: 1, window_start: now }),
{
}

/// Law: nothing that is heard of late moves an open breaker's cooldown.
pub proof fn law_late_failures_change_nothing(b: Breaker, now: Instant)
    requires
        b.state is Open,
    ensures
        b.failed(now) == b,
{
}

/// What failures make of a closed breaker, whatever it had counted before: they count
/// on if they all fall within its window, and anew if its window is over.
proof fn lemma_counts_on(b: Breaker, times: Seq<Instant>)
    requires
        b.valid(),
        b.config is Some,
        b.state is Closed,
        times.len() > 0,
        counts_on(b, times) || counts_anew(b, times),
    ensures
        ({
            let threshold = b.config->0.threshold;
            let n = times.len() + if counts_on(b, times) {
                b.state->failures as int
            } else {
                0
            };
            let end = after_failures(b, times);
            &&& n >= threshold ==> end.state is Open
            &&& n < threshold ==> end.state == (State::Closed {
                failures: n as u32,
                window_start: if counts_on(b, times) {
                    b.state->window_start
                } else {
                    times[0]
                },
            })
            &&& end.config == b.config
        }),
    decreases times.len(),
{
    let front = times.drop_last();
    assert(times[0].since(b.state->window_start) < b.config->0.window.nanos || !counts_on(b, times));
    if front.len() > 0 {
        assert(front[0] == times[0]);
        assert forall|i: int| 0 <= i < front.len() implies #[trigger] front[i] == times[i] by {}
        assert(counts_on(b, times) ==> counts_on(b, front)) by {
            if counts_on(b, times) {
                assert forall|i: int| 0 <= i < front.len() implies (#[trigger] front[i]).since(
                    b.state->window_start,
                ) < b.config->0.window.nanos by {
                    assert(times[i].since(b.state->window_start) < b.config->0.window.nanos);
                }
            }
        }
        assert(counts_anew(b, times) ==> counts_anew(b, front)) by {
            if counts_anew(b, times) {
                assert forall|i: int| 0 <= i < front.len() implies (#[trigger] front[i]).since(
                    front[0],
                ) < b.config->0.window.nanos by {
                    assert(times[i].since(times[0]) < b.config->0.window.nanos);
                }
            }
        }
        lemma_counts_on(b, front);
    } else {
        assert(after_failures(b, front) == b);
    }
    assert(times[times.len() - 1] == times.last());
}

/// Whether failures at those times all fall within the window that has begun.
pub open spec fn counts_on(b: Breaker, times: Seq<Instant>) -> bool {
    &&& b.state->failures > 0
    &&& forall|i: int|
        0 <= i < times.len() ==> (#[trigger] times[i]).since(b.state->window_start)
            < b.config->0.window.nanos
}

/// Whether failures at those times all fall within a window that begins with the first
/// of them.
pub open spec fn counts_anew(b: Breaker, times: Seq<Instant>) -> bool {
    &&& b.state->failures == 0 || times[0].since(b.state->window_start)
        >= b.config->0.window.nanos
    &&& forall|i: int|
        0 <= i < times.len() ==> (#[trigger] times[i]).since(times[0]) < b.config->0.window.nanos
}

/// Law: as many failures as the threshold, or more, open any closed breaker, if they
/// all fall within the window it counts in: the one that has begun, or else one that
/// begins with the first of them.
pub proof fn law_enough_failures_open(b: Breaker, times: Seq<Instant>)
    requires
        b.valid(),
        b.config is Some,
        b.state is Closed,
        times.len() >= b.config->0.threshold,
        counts_on(b, times) || counts_anew(b, times),
    ensures
        after_failures(b, times).state is Open,
{
    lemma_counts_on(b, times);
}

} // verus!

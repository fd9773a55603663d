//! Per-target health.
//!
//! A target starts **healthy** and is marked unhealthy only after
//! `unhealthy_threshold` *consecutive* failed probes. Recovery is eager: one
//! successful probe makes it healthy again and clears both streaks.
//!
//! Live traffic feeds in as well, so that a target that dies between two probes is
//! ejected at once. Live signals can only **eject**: recovery is the prober's job.
//! The two streaks are kept apart so that they never mix.

use vstd::prelude::*;

verus! {

/// Liveness of one target.
#[derive(Clone, Copy, Debug, PartialEq, Eq, Structural)]
pub struct HealthState {
    pub healthy: bool,
    /// Consecutive probe failures since the last probe success.
    pub consecutive_failures: u32,
    /// Consecutive live failures since the last success.
    pub passive_failures: u32,
}

/// One more failure in a row; the count stops at its greatest value.
pub open spec fn one_more(streak: u32) -> u32 {
    if streak == u32::MAX {
        u32::MAX
    } else {
        (streak + 1) as u32
    }
}

/// Whether a streak ejects: a threshold of zero counts as one.
pub open spec fn ejects(streak: u32, threshold: u32) -> bool {
    streak >= threshold && streak >= 1
}

/// What can happen to a target.
pub enum Signal {
    ProbeSuccess,
    ProbeFailure,
    LiveSuccess,
    LiveFailure,
}

impl HealthState {
    /// The state of a target nothing has happened to.
    pub open spec fn fresh() -> HealthState {
        HealthState { healthy: true, consecutive_failures: 0, passive_failures: 0 }
    }

    /// The state after a signal, under that threshold.
    pub open spec fn after(self, signal: Signal, threshold: u32) -> HealthState {
        match signal {
            Signal::ProbeSuccess => HealthState::fresh(),
            Signal::ProbeFailure => {
                let streak = one_more(self.consecutive_failures);
                HealthState {
                    healthy: self.healthy && !ejects(streak, threshold),
                    consecutive_failures: streak,
                    ..self
                }
            },
            Signal::LiveSuccess => HealthState { passive_failures: 0, ..self },
            Signal::LiveFailure => {
                let streak = one_more(self.passive_failures);
                HealthState {
                    healthy: self.healthy && !ejects(streak, threshold),
                    passive_failures: streak,
                    ..self
                }
            },
        }
    }

    /// A target is healthy to begin with.
    pub fn new() -> (h: HealthState)
        ensures
            h == HealthState::fresh(),
    {
        HealthState { healthy: true, consecutive_failures: 0, passive_failures: 0 }
    }

    /// Is this target in rotation, health-wise?
    pub fn is_healthy(&self) -> (r: bool)
        ensures
            r == self.healthy,
    {
        self.healthy
    }

    /// Record a successful probe: recovery is immediate and both streaks reset.
    pub fn record_probe_success(&mut self)
        ensures
            forall|threshold: u32| *final(self) == #[trigger] old(self).after(
                Signal::ProbeSuccess,
                threshold,
            ),
    {
        self.consecutive_failures = 0;
        self.passive_failures = 0;
        self.healthy = true;
    }

    /// Record a failed probe. Once the streak reaches `threshold` the target drops
    /// out of rotation.
    pub fn record_probe_failure(&mut self, threshold: u32)
        ensures
            *final(self) == old(self).after(Signal::ProbeFailure, threshold),
    {
        self.consecutive_failures = self.consecutive_failures.saturating_add(1);
        if self.consecutive_failures >= threshold {
            self.healthy = false;
        }
    }

    /// Record a success of live traffic: the live streak is over. A target that was
    /// ejected stays out.
    pub fn record_live_success(&mut self)
        ensures
            forall|threshold: u32| *final(self) == #[trigger] old(self).after(
                Signal::LiveSuccess,
                threshold,
            ),
    {
        self.passive_failures = 0;
    }

    /// Record a failure of live traffic. After `threshold` in a row the target is
    /// ejected.
    pub fn record_live_failure(&mut self, threshold: u32)
        ensures
            *final(self) == old(self).after(Signal::LiveFailure, threshold),
    {
        self.passive_failures = self.passive_failures.saturating_add(1);
        if self.passive_failures >= threshold {
            self.healthy = false;
        }
    }
}

impl Default for HealthState {
    fn default() -> (h: HealthState)
        ensures
            h == HealthState::fresh(),
    {
        HealthState::new()
    }
}

/// The state after a run of signals.
pub open spec fn after_all(h: HealthState, signals: Seq<Signal>, threshold: u32) -> HealthState
    decreases signals.len(),
{
    if signals.len() == 0 {
        h
    } else {
        after_all(h, signals.drop_last(), threshold).after(signals.last(), threshold)
    }
}

/// Whether a signal is a probe's.
pub open spec fn of_probe(signal: Signal) -> bool {
    signal is ProbeSuccess || signal is ProbeFailure
}

/// Those of the signals that are probes', or those that are live traffic's.
pub open spec fn only(signals: Seq<Signal>, probes: bool) -> Seq<Signal>
    decreases signals.len(),
{
    if signals.len() == 0 {
        Seq::empty()
    } else if of_probe(signals.last()) == probes {
        only(signals.drop_last(), probes).push(signals.last())
    } else {
        only(signals.drop_last(), probes)
    }
}

/// Law: the streaks never mix. As long as no probe succeeds, each streak is what the
/// signals of its own kind alone make it, and a target is healthy exactly if neither
/// kind alone ejects it.
pub proof fn law_streaks_never_mix(signals: Seq<Signal>, threshold: u32)
    requires
        forall|i: int| 0 <= i < signals.len() ==> #[trigger] signals[i] !is ProbeSuccess,
    ensures
        ({
            let h = after_all(HealthState::fresh(), signals, threshold);
            let probed = after_all(HealthState::fresh(), only(signals, true), threshold);
            let live = after_all(HealthState::fresh(), only(signals, false), threshold);
            &&& h.consecutive_failures == probed.consecutive_failures
            &&& h.passive_failures == live.passive_failures
            &&& h.healthy <==> probed.healthy && live.healthy
        }),
    decreases signals.len(),
{
    if signals.len() > 0 {
        let front = signals.drop_last();
        assert forall|i: int| 0 <= i < front.len() implies #[trigger] front[i] !is ProbeSuccess by {
            assert(signals[i] !is ProbeSuccess);
        }
        law_streaks_never_mix(front, threshold);
        assert(signals[signals.len() - 1] !is ProbeSuccess);
        let probes = of_probe(signals.last());
        assert(only(signals, probes).drop_last() =~= only(front, probes));
    }
}

/// Law: a fresh target is ejected by exactly `threshold` failures in a row, of probes
/// or of live traffic, and not before (a threshold of zero counts as one), whatever
/// signals of the other kind come in between, unless those eject it themselves.
pub proof fn law_ejected_at_threshold(signals: Seq<Signal>, probes: bool, threshold: u32)
    requires
        forall|i: int| 0 <= i < signals.len() ==> #[trigger] signals[i] !is ProbeSuccess,
        !probes ==> forall|i: int| 0 <= i < signals.len() ==> #[trigger] signals[i] !is LiveSuccess,
        only(signals, probes).len() <= u32::MAX,
        after_all(HealthState::fresh(), only(signals, !probes), threshold).healthy,
    ensures
        after_all(HealthState::fresh(), signals, threshold).healthy <==> only(signals, probes).len()
            < threshold || only(signals, probes).len() == 0,
{
    law_streaks_never_mix(signals, threshold);
    lemma_streak(signals, probes, threshold);
}

/// Failures of one kind alone, with no success among them.
proof fn lemma_streak(signals: Seq<Signal>, probes: bool, threshold: u32)
    requires
        forall|i: int| 0 <= i < signals.len() ==> #[trigger] signals[i] !is ProbeSuccess,
        !probes ==> forall|i: int| 0 <= i < signals.len() ==> #[trigger] signals[i] !is LiveSuccess,
        only(signals, probes).len() <= u32::MAX,
    ensures
        ({
            let k = only(signals, probes).len();
            let h = after_all(HealthState::fresh(), only(signals, probes), threshold);
            &&& h.healthy <==> k < threshold || k == 0
            &&& probes ==> h.consecutive_failures == k
            &&& !probes ==> h.passive_failures == k
        }),
    decreases signals.len(),
{
    if signals.len() > 0 {
        let front = signals.drop_last();
        assert forall|i: int| 0 <= i < front.len() implies #[trigger] front[i] !is ProbeSuccess && (
        !probes ==> front[i] !is LiveSuccess) by {
            assert(signals[i] !is ProbeSuccess);
        }
        lemma_streak(front, probes, threshold);
        assert(signals[signals.len() - 1] !is ProbeSuccess);
        if of_probe(signals.last()) == probes {
            assert(only(signals, probes).drop_last() =~= only(front, probes));
        }
    }
}

/// Law: one successful probe makes any target as good as new.
pub proof fn law_probe_success_recovers(h: HealthState, threshold: u32)
    ensures
        h.after(Signal::ProbeSuccess, threshold) == HealthState::fresh(),
{
}

/// Law: nothing but a successful probe brings an ejected target back.
pub proof fn law_only_a_probe_readmits(h: HealthState, signals: Seq<Signal>, threshold: u32)
    requires
        !h.healthy,
        forall|i: int| 0 <= i < signals.len() ==> #[trigger] signals[i] !is ProbeSuccess,
    ensures
        !after_all(h, signals, threshold).healthy,
    decreases signals.len(),
{
    if signals.len() > 0 {
        let front = signals.drop_last();
        assert forall|i: int| 0 <= i < front.len() implies #[trigger] front[i] !is ProbeSuccess by {
            assert(signals[i] !is ProbeSuccess);
        }
        law_only_a_probe_readmits(h, front, threshold);
        assert(signals[signals.len() - 1] !is ProbeSuccess);
    }
}

/// Law: a live success ends the streak of live failures, and nothing else: it takes as
/// many failures again as for a target that never failed, and it brings no ejected
/// target back.
pub proof fn law_live_success_ends_the_streak(h: HealthState, threshold: u32)
    ensures
        h.after(Signal::LiveSuccess, threshold).passive_failures == 0,
        h.after(Signal::LiveSuccess, threshold).healthy == h.healthy,
        h.after(Signal::LiveSuccess, threshold).consecutive_failures == h.consecutive_failures,
{
}

} // verus!

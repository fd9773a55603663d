//! Retries: which target an upstream call goes to next, after what delay, and when
//! it is given up.
//!
//! A [`Call`] stands for one client request. [`Call::begin`] picks the first target;
//! after each attempt [`Call::on_outcome`] says whether to pause and try again or to
//! answer, and after the pause [`Call::resume`] picks the next target. `attempts`
//! is the total number of tries. A listed status is tried again, and so are a
//! timeout and a transport error. A retry goes on to the next eligible target of the
//! same preference order; if none is left, the last outcome is the answer.
//!
//! Next to the timeout of each attempt there is a budget for the whole call: what all
//! attempts at full length and all delays between them would take. No pause is begun
//! that would end later.

use vstd::arithmetic::power2::{lemma_pow2_pos, lemma_pow2_unfold, pow2};
use vstd::prelude::*;

use super::balance::is_permutation;
use super::breaker::{
    after_failures, counts_anew, counts_on, law_enough_failures_open, law_trips_at_threshold, State,
};
use super::health::{HealthState, Signal};
use super::target::{
    first_eligible, lemma_first_eligible, looked_at, pool_after, position, selection,
    RouteUpstream, Selection, TargetRuntime,
};
use crate::clock::{Duration, Instant};
use crate::config::{Backoff, Retry};
use crate::error::{ErrorView, GatewayError};
use crate::text;

verus! {

/// How one attempt went.
pub enum Outcome {
    /// The target responded.
    Response { status: u16 },
    /// It did not respond in time.
    Timeout,
    /// It could not be reached, or the connection broke: why.
    Failed(String),
}

/// What an [`Outcome`] holds.
#[verifier::ext_equal]
pub enum OutcomeView {
    Response { status: u16 },
    Timeout,
    Failed(Seq<char>),
}

impl View for Outcome {
    type V = OutcomeView;

    open spec fn view(&self) -> OutcomeView {
        match self {
            Outcome::Response { status } => OutcomeView::Response { status: *status },
            Outcome::Timeout => OutcomeView::Timeout,
            Outcome::Failed(why) => OutcomeView::Failed(why@),
        }
    }
}

impl OutcomeView {
    /// Whether the attempt counts against its target: a 5xx, a timeout or a
    /// transport error.
    pub open spec fn is_failure(self) -> bool {
        match self {
            OutcomeView::Response { status } => 500 <= status <= 599,
            _ => true,
        }
    }

    /// Whether the attempt may be made again: a listed status, a timeout or a
    /// transport error.
    pub open spec fn is_retryable(self, on: Seq<u16>) -> bool {
        match self {
            OutcomeView::Response { status } => on.contains(status),
            _ => true,
        }
    }

    /// The answer when this is the last outcome: the upstream's own response, or the
    /// error for it.
    pub open spec fn surfaced(self) -> ActionView {
        match self {
            OutcomeView::Response { .. } => ActionView::Relay,
            OutcomeView::Timeout => ActionView::Fail(ErrorView::GatewayTimeout),
            OutcomeView::Failed(why) => ActionView::Fail(ErrorView::BadGateway(why)),
        }
    }
}

/// What to do next.
pub enum Action {
    /// Send the request to this target.
    Send { target: usize },
    /// Wait, then resume.
    Pause { delay: Duration },
    /// Answer with the last upstream response.
    Relay,
    /// Answer with an error.
    Fail(GatewayError),
}

/// What an [`Action`] holds.
#[verifier::ext_equal]
pub enum ActionView {
    Send { target: usize },
    Pause { delay: Duration },
    Relay,
    Fail(ErrorView),
}

impl View for Action {
    type V = ActionView;

    open spec fn view(&self) -> ActionView {
        match self {
            Action::Send { target } => ActionView::Send { target: *target },
            Action::Pause { delay } => ActionView::Pause { delay: *delay },
            Action::Relay => ActionView::Relay,
            Action::Fail(e) => ActionView::Fail(e@),
        }
    }
}

/// The total number of tries: at least one.
pub open spec fn tries(retry: Option<Retry>) -> u32 {
    match retry {
        Some(r) => if r.attempts < 1 {
            1
        } else {
            r.attempts
        },
        None => 1,
    }
}

/// `x`, or the greatest span that can be counted.
pub open spec fn capped(x: int) -> u128 {
    if x > u128::MAX {
        u128::MAX
    } else {
        x as u128
    }
}

/// The delay before retry `n`, counted from 1: the same each time, or doubled from
/// one to the next.
pub open spec fn backoff(r: Retry, n: nat) -> u128 {
    match r.backoff {
        Backoff::Fixed => r.initial_delay.nanos,
        Backoff::Exponential => capped(r.initial_delay.nanos * pow2((n - 1) as nat)),
    }
}

/// All delays before the first `k` retries together.
pub open spec fn backoff_total(r: Retry, k: nat) -> int {
    match r.backoff {
        Backoff::Fixed => r.initial_delay.nanos * k,
        Backoff::Exponential => r.initial_delay.nanos * (pow2(k) - 1),
    }
}

/// The time the whole call may take: all attempts at full length and all delays
/// between them. Without a timeout there is no limit.
pub open spec fn budget(retry: Option<Retry>, timeout: Option<Duration>) -> Option<u128> {
    match (retry, timeout) {
        (Some(r), Some(t)) => Some(
            capped(tries(retry) * t.nanos + backoff_total(r, (tries(retry) - 1) as nat)),
        ),
        _ => None,
    }
}

/// The delay before retry `n`.
pub fn delay_before(r: &Retry, n: u32) -> (d: Duration)
    requires
        n >= 1,
    ensures
        d.nanos == backoff(*r, n as nat),
{
    match r.backoff {
        Backoff::Fixed => r.initial_delay,
        Backoff::Exponential => {
            let ghost first = r.initial_delay.nanos as int;
            let mut d: u128 = r.initial_delay.nanos;
            let mut i: u32 = 1;
            proof {
                vstd::arithmetic::power2::lemma2_to64();
                assert(first * pow2(0) == first) by (nonlinear_arith)
                    requires
                        pow2(0) == 1,
                ;
            }
            while i < n && d != 0 && d != u128::MAX
                invariant
                    1 <= i <= n,
                    first == r.initial_delay.nanos,
                    d == capped(first * pow2((i - 1) as nat)),
                decreases n - i,
            {
                proof {
                    lemma_doubled(first, (i - 1) as nat);
                }
                d = if d > u128::MAX / 2 {
                    u128::MAX
                } else {
                    d * 2
                };
                i += 1;
            }
            proof {
                lemma_grows(first, (i - 1) as nat, (n - 1) as nat);
                if d == 0 {
                    assert(first == 0) by (nonlinear_arith)
                        requires
                            first * pow2((i - 1) as nat) == 0,
                            pow2((i - 1) as nat) > 0,
                            first >= 0,
                    ;
                    assert(0 * pow2((n - 1) as nat) == 0) by (nonlinear_arith);
                }
            }
            Duration { nanos: d }
        },
    }
}

/// One more power of two doubles a product.
proof fn lemma_doubled(x: int, k: nat)
    ensures
        x * pow2(k + 1) == 2 * (x * pow2(k)),
        pow2(k) > 0,
        pow2(k + 1) > 0,
{
    lemma_pow2_pos(k);
    lemma_pow2_pos(k + 1);
    lemma_pow2_unfold(k + 1);
    assert(x * (2 * pow2(k)) == 2 * (x * pow2(k))) by (nonlinear_arith);
}

/// A product with a power of two does not shrink as the power grows.
proof fn lemma_grows(x: int, j: nat, k: nat)
    requires
        x >= 0,
        j <= k,
    ensures
        x * pow2(j) <= x * pow2(k),
        x * (pow2(j) - 1) <= x * (pow2(k) - 1),
        pow2(j) > 0,
        0 <= x * (pow2(j) - 1),
    decreases k - j,
{
    lemma_pow2_pos(j);
    assert(0 <= x * (pow2(j) - 1)) by (nonlinear_arith)
        requires
            x >= 0,
            pow2(j) >= 1,
    ;
    if j < k {
        lemma_grows(x, j + 1, k);
        lemma_pow2_unfold(j + 1);
        let a = pow2(j) as int;
        let b = pow2(j + 1) as int;
        assert(x * a <= x * b && x * (a - 1) <= x * (b - 1)) by (nonlinear_arith)
            requires
                x >= 0,
                b == 2 * a,
                a > 0,
        ;
    }
}

/// `k` times a span, as far as it can be counted.
fn times(nanos: u128, k: u32) -> (r: u128)
    ensures
        r == capped(nanos * k),
{
    match nanos.checked_mul(k as u128) {
        Some(r) => r,
        None => u128::MAX,
    }
}

/// All delays before the first `k` retries together, as far as they can be counted.
fn total_delay(r: &Retry, k: u32) -> (nanos: u128)
    ensures
        nanos == capped(backoff_total(*r, k as nat)),
{
    let first: u128 = r.initial_delay.nanos;
    match r.backoff {
        Backoff::Fixed => times(first, k),
        Backoff::Exponential => {
            let ghost x = first as int;
            let mut sum: u128 = 0;
            let mut d: u128 = first;
            let mut i: u32 = 0;
            proof {
                vstd::arithmetic::power2::lemma2_to64();
                assert(x * pow2(0) == x && x * (pow2(0) - 1) == 0) by (nonlinear_arith)
                    requires
                        pow2(0) == 1,
                ;
            }
            while i < k && first != 0 && sum != u128::MAX
                invariant
                    i <= k,
                    x == first,
                    sum == capped(x * (pow2(i as nat) - 1)),
                    d == capped(x * pow2(i as nat)),
                decreases k - i,
            {
                proof {
                    lemma_doubled(x, i as nat);
                    lemma_grows(x, i as nat, i as nat + 1);
                    let a = pow2(i as nat) as int;
                    assert(x * (2 * a - 1) == x * (a - 1) + x * a) by (nonlinear_arith);
                    lemma_pow2_unfold(i as nat + 1);
                }
                sum = sum.saturating_add(d);
                d = if d > u128::MAX / 2 {
                    u128::MAX
                } else {
                    d * 2
                };
                i += 1;
            }
            proof {
                lemma_grows(x, i as nat, k as nat);
                if first == 0 {
                    assert(0 * (pow2(k as nat) - 1) == 0) by (nonlinear_arith);
                }
            }
            sum
        },
    }
}

/// The total number of tries.
pub fn total_tries(retry: Option<&Retry>) -> (n: u32)
    ensures
        n == tries(
            match retry {
                Some(r) => Some(*r),
                None => None,
            },
        ),
        n >= 1,
{
    match retry {
        Some(r) => if r.attempts < 1 {
            1
        } else {
            r.attempts
        },
        None => 1,
    }
}

/// The time the whole call may take.
pub fn overall_budget(retry: Option<&Retry>, timeout: Option<Duration>) -> (b: Option<Duration>)
    ensures
        b == (match budget(
            match retry {
                Some(r) => Some(*r),
                None => None,
            },
            timeout,
        ) {
            Some(nanos) => Some(Duration { nanos }),
            None => None,
        }),
{
    match retry {
        Some(r) => match timeout {
            Some(t) => {
                let n: u32 = total_tries(retry);
                let calls: u128 = times(t.nanos, n);
                let delays: u128 = total_delay(r, n - 1);
                proof {
                    assert(backoff_total(*r, (n - 1) as nat) >= 0) by {
                        lemma_grows(r.initial_delay.nanos as int, (n - 1) as nat, (n - 1) as nat);
                        assert(r.initial_delay.nanos * (n - 1) >= 0) by (nonlinear_arith)
                            requires
                                r.initial_delay.nanos >= 0,
                                n >= 1,
                        ;
                    }
                    assert(t.nanos * n == n * t.nanos) by (nonlinear_arith);
                }
                Some(Duration { nanos: calls.saturating_add(delays) })
            },
            None => None,
        },
        None => None,
    }
}

/// The error when no target is eligible.
pub open spec fn unavailable(open: bool, retry_after: u64) -> ErrorView {
    if open {
        ErrorView::CircuitOpen { retry_after }
    } else {
        ErrorView::AllTargetsUnhealthy
    }
}

/// Executable form of [`unavailable`].
pub fn unavailable_error(open: bool, retry_after: u64) -> (e: GatewayError)
    ensures
        e@ == unavailable(open, retry_after),
{
    if open {
        GatewayError::CircuitOpen { retry_after }
    } else {
        GatewayError::AllTargetsUnhealthy
    }
}

/// What a call begins with, given its preference ordering.
pub open spec fn opening(
    targets: Seq<TargetRuntime>,
    order: Seq<usize>,
    now: Instant,
) -> ActionView {
    match selection(targets, order, 0, now) {
        Selection::Target { target, .. } => ActionView::Send { target },
        Selection::Unavailable { open, retry_after } => ActionView::Fail(
            unavailable(open, retry_after),
        ),
    }
}

/// When the last pause of a call that starts at `now` has to be over.
pub open spec fn deadline_of(
    retry: Option<Retry>,
    timeout: Option<Duration>,
    now: Instant,
) -> Option<Instant> {
    match budget(retry, timeout) {
        Some(nanos) => Some(Instant { nanos: capped(now.nanos + nanos) }),
        None => None,
    }
}

/// One client request on its way through the targets of a route.
pub struct Call {
    /// The preference ordering of this request.
    pub order: Vec<usize>,
    /// Where in the ordering the current target stands.
    pub order_pos: usize,
    /// The target of the current attempt.
    pub target: usize,
    /// Attempts started.
    pub made: u32,
    /// When the last pause has to be over.
    pub deadline: Option<Instant>,
    /// How the last attempt went.
    pub last: Option<Outcome>,
}

impl Call {
    /// The invariant: the ordering is one of the route's targets, and the current
    /// target is on it.
    pub open spec fn valid(self, targets: int) -> bool {
        &&& is_permutation(self.order@, targets)
        &&& self.order_pos < self.order@.len()
        &&& self.target == self.order@[self.order_pos as int]
        &&& self.made >= 1
    }

    /// Whether the budget allows another attempt after `delay`.
    pub open spec fn in_time(self, now: Instant, delay: u128) -> bool {
        self.deadline matches Some(d) ==> now.nanos + delay <= d.nanos
    }

    /// Whether an attempt that went like that is made again.
    pub open spec fn retries(self, retry: Option<Retry>, outcome: OutcomeView, now: Instant) -> bool {
        &&& retry is Some
        &&& self.made < tries(retry)
        &&& outcome.is_retryable(retry->0.on@)
        &&& self.in_time(now, backoff(retry->0, self.made as nat))
    }

    /// What is done after an attempt that went like that.
    pub open spec fn answer(
        self,
        retry: Option<Retry>,
        outcome: OutcomeView,
        now: Instant,
    ) -> ActionView {
        if self.retries(retry, outcome, now) {
            ActionView::Pause {
                delay: Duration { nanos: backoff(retry->0, self.made as nat) },
            }
        } else {
            outcome.surfaced()
        }
    }

    /// What is done after a pause.
    pub open spec fn resumed(self, targets: Seq<TargetRuntime>, now: Instant) -> ActionView {
        match selection(targets, self.order@, self.order_pos + 1, now) {
            Selection::Target { target, .. } => ActionView::Send { target },
            Selection::Unavailable { .. } => self.last->0@.surfaced(),
        }
    }

    /// Start a call: ask the balancer once, and pick the first eligible target.
    /// Without one the call fails at once.
    pub fn begin(
        route: &mut RouteUpstream,
        retry: Option<&Retry>,
        timeout: Option<Duration>,
        now: Instant,
    ) -> (r: (Option<Call>, Action))
        requires
            old(route).valid(),
        ensures
            final(route).valid(),
            final(route).targets@.len() == old(route).targets@.len(),
            final(route).balancer@ == old(route).balancer@.next(),
            final(route).health_check == old(route).health_check,
            ({
                let order = old(route).balancer@.order(old(route).targets@.len() as int);
                &&& final(route).targets@ == pool_after(old(route).targets@, order, 0, now)
                &&& match selection(old(route).targets@, order, 0, now) {
                    Selection::Target { target, order_pos } => {
                        &&& r.1@ == (ActionView::Send { target })
                        &&& r.0 matches Some(call)
                        &&& call.valid(final(route).targets@.len() as int)
                        &&& call.order@ == order
                        &&& call.order_pos == order_pos
                        &&& call.target == target
                        &&& call.made == 1
                        &&& call.last is None
                        &&& call.deadline == (match budget(
                            match retry {
                                Some(r) => Some(*r),
                                None => None,
                            },
                            timeout,
                        ) {
                            Some(nanos) => Some(Instant { nanos: capped(now.nanos + nanos) }),
                            None => None,
                        })
                    },
                    Selection::Unavailable { open, retry_after } => {
                        &&& r.0 is None
                        &&& r.1@ == ActionView::Fail(unavailable(open, retry_after))
                    },
                }
                &&& r.1@ == opening(old(route).targets@, order, now)
                &&& r.0 matches Some(call) ==> call.deadline == deadline_of(
                    match retry {
                        Some(r) => Some(*r),
                        None => None,
                    },
                    timeout,
                    now,
                )
            }),
    {
        let order = route.preference_order();
        let sel = route.select(order.as_slice(), 0, now);
        proof {
            assert(order.len() == order@.len());
            lemma_selected(old(route).targets@, order@, 0, now);
        }
        match sel {
            Selection::Target { target, order_pos } => {
                let deadline = match overall_budget(retry, timeout) {
                    Some(d) => Some(now.plus(d)),
                    None => None,
                };
                let call = Call { order, order_pos, target, made: 1, deadline, last: None };
                (Some(call), Action::Send { target })
            },
            Selection::Unavailable { open, retry_after } => {
                (None, Action::Fail(unavailable_error(open, retry_after)))
            },
        }
    }

    /// Take note of how an attempt went and say what to do next. The target's
    /// breaker counts it, and so does its health when the route has a health check.
    pub fn on_outcome(
        &mut self,
        route: &mut RouteUpstream,
        retry: Option<&Retry>,
        outcome: Outcome,
        now: Instant,
    ) -> (a: Action)
        requires
            old(route).valid(),
            old(self).valid(old(route).targets@.len() as int),
        ensures
            final(route).valid(),
            final(route).balancer == old(route).balancer,
            final(route).health_check == old(route).health_check,
            final(route).targets@ == old(route).pool_after_live(
                old(self).target as int,
                !outcome@.is_failure(),
                now,
            ),
            final(route).targets@ == old(route).targets@.update(
                old(self).target as int,
                after_outcome(
                    old(route).targets@[old(self).target as int],
                    probe_threshold(*old(route)),
                    outcome@,
                    now,
                ),
            ),
            final(self).valid(final(route).targets@.len() as int),
            *final(self) == (Call { last: Some(outcome), ..*old(self) }),
            ({
                let policy = match retry {
                    Some(r) => Some(*r),
                    None => None,
                };
                a@ == if old(self).retries(policy, outcome@, now) {
                    ActionView::Pause {
                        delay: Duration { nanos: backoff(policy->0, old(self).made as nat) },
                    }
                } else {
                    outcome@.surfaced()
                }
            }),
            a@ == old(self).answer(
                match retry {
                    Some(r) => Some(*r),
                    None => None,
                },
                outcome@,
                now,
            ),
    {
        let failed: bool = is_failure(&outcome);
        route.record_live(self.target, !failed, now);
        let pause: Option<Duration> = match retry {
            Some(r) => {
                if self.made < total_tries(retry) && is_retryable(&outcome, &r.on) {
                    let delay = delay_before(r, self.made);
                    let fits: bool = match self.deadline {
                        Some(d) => now.nanos <= d.nanos && delay.nanos <= d.nanos - now.nanos,
                        None => true,
                    };
                    if fits {
                        Some(delay)
                    } else {
                        None
                    }
                } else {
                    None
                }
            },
            None => None,
        };
        let a = match pause {
            Some(delay) => Action::Pause { delay },
            None => surface(&outcome),
        };
        self.last = Some(outcome);
        a
    }

    /// Go on after a pause: pick the next eligible target after the current one. If
    /// there is none, the last outcome is the answer.
    pub fn resume(&mut self, route: &mut RouteUpstream, now: Instant) -> (a: Action)
        requires
            old(route).valid(),
            old(self).valid(old(route).targets@.len() as int),
            old(self).last is Some,
            old(self).made < u32::MAX,
        ensures
            final(route).valid(),
            final(route).balancer == old(route).balancer,
            final(route).health_check == old(route).health_check,
            final(route).targets@ == pool_after(
                old(route).targets@,
                old(self).order@,
                old(self).order_pos + 1,
                now,
            ),
            final(self).valid(final(route).targets@.len() as int),
            match selection(
                old(route).targets@,
                old(self).order@,
                old(self).order_pos + 1,
                now,
            ) {
                Selection::Target { target, order_pos } => {
                    &&& a@ == (ActionView::Send { target })
                    &&& *final(self) == (Call {
                        target,
                        order_pos,
                        made: (old(self).made + 1) as u32,
                        ..*old(self)
                    })
                },
                Selection::Unavailable { .. } => {
                    &&& a@ == old(self).last->0@.surfaced()
                    &&& *final(self) == *old(self)
                },
            },
            a@ == old(self).resumed(old(route).targets@, now),
    {
        proof {
            assert(self.order.len() == self.order@.len());
            lemma_selected(route.targets@, self.order@, self.order_pos + 1, now);
        }
        match route.select(self.order.as_slice(), self.order_pos + 1, now) {
            Selection::Target { target, order_pos } => {
                self.target = target;
                self.order_pos = order_pos;
                self.made = self.made + 1;
                Action::Send { target }
            },
            Selection::Unavailable { .. } => match &self.last {
                Some(outcome) => surface(outcome),
                None => Action::Relay,
            },
        }
    }
}

/// A selected target stands where it is said to stand.
proof fn lemma_selected(targets: Seq<TargetRuntime>, order: Seq<usize>, start: int, now: Instant)
    requires
        order.len() <= usize::MAX,
    ensures
        selection(targets, order, start, now) matches Selection::Target { target, order_pos }
            ==> order_pos < order.len() && target == order[order_pos as int],
{
    if selection(targets, order, start, now) is Target {
        lemma_first_eligible(targets, order, start, now, 0);
        let step = first_eligible(targets, order, start, now, 0)->0;
        vstd::arithmetic::div_mod::lemma_mod_bound(start + step, order.len() as int);
    }
}

/// Whether an attempt counts against its target.
pub fn is_failure(outcome: &Outcome) -> (r: bool)
    ensures
        r == outcome@.is_failure(),
        !r <==> (outcome matches Outcome::Response { status } && (status < 500 || status > 599)),
{
    match outcome {
        Outcome::Response { status } => 500 <= *status && *status <= 599,
        _ => true,
    }
}

/// Whether an attempt may be made again.
pub fn is_retryable(outcome: &Outcome, on: &Vec<u16>) -> (r: bool)
    ensures
        r == outcome@.is_retryable(on@),
        !r <==> (outcome matches Outcome::Response { status } && forall|j: int|
            0 <= j < on@.len() ==> #[trigger] on@[j] != status),
{
    match outcome {
        Outcome::Response { status } => {
            let mut i: usize = 0;
            while i < on.len()
                invariant
                    i <= on@.len(),
                    outcome@ == (OutcomeView::Response { status: *status }),
                    forall|j: int| 0 <= j < i ==> #[trigger] on@[j] != *status,
                decreases on@.len() - i,
            {
                if on[i] == *status {
                    assert(on@.contains(*status));
                    return true;
                }
                i += 1;
            }
            false
        },
        _ => true,
    }
}

/// The answer when this was the last attempt.
fn surface(outcome: &Outcome) -> (a: Action)
    ensures
        a@ == outcome@.surfaced(),
{
    match outcome {
        Outcome::Response { .. } => Action::Relay,
        Outcome::Timeout => Action::Fail(GatewayError::GatewayTimeout),
        Outcome::Failed(why) => Action::Fail(GatewayError::BadGateway(why.clone())),
    }
}

/// The threshold of a route's health check, if it has one.
pub open spec fn probe_threshold(route: RouteUpstream) -> Option<u32> {
    match route.health_check {
        Some(hc) => Some(hc.unhealthy_threshold),
        None => None,
    }
}

/// A target after an attempt on it went like that, on a route whose health check, if
/// it has one, has that threshold.
pub open spec fn after_outcome(
    t: TargetRuntime,
    threshold: Option<u32>,
    outcome: OutcomeView,
    now: Instant,
) -> TargetRuntime {
    TargetRuntime {
        breaker: if outcome.is_failure() {
            t.breaker.failed(now)
        } else {
            t.breaker.succeeded(now)
        },
        health: match threshold {
            Some(n) => t.health.after(
                if outcome.is_failure() {
                    Signal::LiveFailure
                } else {
                    Signal::LiveSuccess
                },
                n,
            ),
            None => t.health,
        },
        ..t
    }
}

/// A target after a run of attempts on it.
pub open spec fn after_outcomes(
    t: TargetRuntime,
    threshold: Option<u32>,
    attempts: Seq<(OutcomeView, Instant)>,
) -> TargetRuntime
    decreases attempts.len(),
{
    if attempts.len() == 0 {
        t
    } else {
        after_outcome(
            after_outcomes(t, threshold, attempts.drop_last()),
            threshold,
            attempts.last().0,
            attempts.last().1,
        )
    }
}

/// A run of attempts that all fail makes of the breaker what failures at their times
/// do, and of the health what as many live failures do.
proof fn lemma_failing_run(
    t: TargetRuntime,
    threshold: Option<u32>,
    attempts: Seq<(OutcomeView, Instant)>,
)
    requires
        forall|i: int| 0 <= i < attempts.len() ==> (#[trigger] attempts[i]).0.is_failure(),
    ensures
        ({
            let end = after_outcomes(t, threshold, attempts);
            let times = attempts.map_values(|a: (OutcomeView, Instant)| a.1);
            let n = attempts.len();
            &&& end.breaker == after_failures(t.breaker, times)
            &&& threshold is None ==> end.health == t.health
            &&& threshold is Some && t.health == HealthState::fresh() && n <= u32::MAX
                ==> end.health.passive_failures == n && (end.health.healthy <==> n < threshold->0
                || n == 0)
        }),
    decreases attempts.len(),
{
    if attempts.len() > 0 {
        let front = attempts.drop_last();
        assert forall|i: int| 0 <= i < front.len() implies (#[trigger] front[i]).0.is_failure() by {
            assert(attempts[i].0.is_failure());
        }
        lemma_failing_run(t, threshold, front);
        let times = attempts.map_values(|a: (OutcomeView, Instant)| a.1);
        assert(times.drop_last() =~= front.map_values(|a: (OutcomeView, Instant)| a.1));
        assert(attempts[attempts.len() - 1].0.is_failure());
    }
}

/// Law: a broken target is taken out. Attempts that are answered with any status from
/// 500 to 599, that time out or that do not get through, all within the window of the
/// first, open a closed breaker that has counted nothing with the attempt that makes
/// them `threshold`, and not before. With a health check they also eject a fresh
/// target with the attempt that makes them its threshold, and not before.
pub proof fn law_failing_attempts_take_a_target_out(
    t: TargetRuntime,
    threshold: Option<u32>,
    attempts: Seq<(OutcomeView, Instant)>,
)
    requires
        t.breaker.valid(),
        forall|i: int|
            0 <= i < attempts.len() ==> ((#[trigger] attempts[i]).0 matches OutcomeView::Response {
                status,
            } ==> 500 <= status <= 599),
    ensures
        ({
            let end = after_outcomes(t, threshold, attempts);
            &&& t.breaker.config is Some && t.breaker.state is Closed && t.breaker.state->failures
                == 0 && attempts.len() <= t.breaker.config->0.threshold && (forall|i: int|
                0 <= i < attempts.len() ==> (#[trigger] attempts[i]).1.since(attempts[0].1)
                    < t.breaker.config->0.window.nanos) ==> (end.breaker.state is Open
                <==> attempts.len() == t.breaker.config->0.threshold)
            &&& threshold is Some && t.health == HealthState::fresh() && attempts.len() <= u32::MAX
                ==> (end.health.healthy <==> attempts.len() < threshold->0 || attempts.len() == 0)
        }),
{
    assert forall|i: int| 0 <= i < attempts.len() implies (#[trigger] attempts[i]).0.is_failure() by {
        assert(attempts[i].0 matches OutcomeView::Response { status } ==> 500 <= status <= 599);
    }
    lemma_failing_run(t, threshold, attempts);
    if t.breaker.config is Some && t.breaker.state is Closed && t.breaker.state->failures == 0
        && attempts.len() <= t.breaker.config->0.threshold && (forall|i: int|
        0 <= i < attempts.len() ==> (#[trigger] attempts[i]).1.since(attempts[0].1)
            < t.breaker.config->0.window.nanos) {
        let times = attempts.map_values(|a: (OutcomeView, Instant)| a.1);
        assert forall|i: int| 0 <= i < times.len() implies (#[trigger] times[i]).since(times[0])
            < t.breaker.config->0.window.nanos by {
            assert(attempts[i].1.since(attempts[0].1) < t.breaker.config->0.window.nanos);
        }
        law_trips_at_threshold(t.breaker, times);
    }
}

/// Law: a response with any other status is no failure. It changes neither a closed
/// breaker nor whether the target is healthy, ends the streak of live failures where
/// there is a health check, and closes a breaker whose trial it was.
pub proof fn law_other_responses_do_not_count(
    t: TargetRuntime,
    threshold: Option<u32>,
    status: u16,
    now: Instant,
)
    requires
        status < 500 || status > 599,
    ensures
        ({
            let end = after_outcome(t, threshold, OutcomeView::Response { status }, now);
            &&& t.breaker.state is Closed ==> end.breaker == t.breaker
            &&& t.breaker.config is Some && t.breaker.state is HalfOpen ==> end.breaker.state == (
            State::Closed { failures: 0, window_start: now })
            &&& end.health.healthy == t.health.healthy
            &&& end.health.consecutive_failures == t.health.consecutive_failures
            &&& threshold is Some ==> end.health.passive_failures == 0
            &&& threshold is None ==> end.health == t.health
        }),
{
}

/// Law: a failing attempt that was the trial of a half-open breaker opens it again.
pub proof fn law_failed_trial_reopens(
    t: TargetRuntime,
    threshold: Option<u32>,
    outcome: OutcomeView,
    now: Instant,
)
    requires
        t.breaker.config is Some,
        t.breaker.state is HalfOpen,
        outcome matches OutcomeView::Response { status } ==> 500 <= status <= 599,
    ensures
        after_outcome(t, threshold, outcome, now).breaker.state == (State::Open { opened_at: now }),
{
}

/// Law: what is tried again. While attempts are left and there is no budget to keep,
/// a response is tried again if its status stands anywhere in the list, and is not if
/// it differs from every status listed; a timeout and a transport error always are.
pub proof fn law_what_is_tried_again(call: Call, r: Retry, i: int, status: u16, why: Seq<char>, now: Instant)
    requires
        1 <= call.made < r.attempts,
        call.deadline is None,
    ensures
        0 <= i < r.on@.len() ==> call.retries(
            Some(r),
            OutcomeView::Response { status: r.on@[i] },
            now,
        ),
        (forall|j: int| 0 <= j < r.on@.len() ==> #[trigger] r.on@[j] != status) ==> !call.retries(
            Some(r),
            OutcomeView::Response { status },
            now,
        ),
        call.retries(Some(r), OutcomeView::Timeout, now),
        call.retries(Some(r), OutcomeView::Failed(why), now),
{
    if 0 <= i < r.on@.len() {
        assert(r.on@.contains(r.on@[i]));
    }
}

/// Law: `attempts` counts every try. With no budget to keep, what may be tried again
/// is tried again exactly while fewer than `attempts` tries were made.
pub proof fn law_attempts_is_the_total(call: Call, r: Retry, now: Instant)
    requires
        call.made >= 1,
        call.deadline is None,
    ensures
        call.retries(Some(r), OutcomeView::Timeout, now) <==> call.made < r.attempts,
        tries(Some(r)) == if r.attempts == 0 {
            1
        } else {
            r.attempts
        },
        tries(None) == 1,
{
}

/// Law: a pause that would end after the deadline is not begun, and one that ends by
/// then is.
pub proof fn law_pauses_end_by_the_deadline(call: Call, r: Retry, deadline: Instant, now: Instant)
    requires
        1 <= call.made < r.attempts,
        call.deadline == Some(deadline),
    ensures
        call.retries(Some(r), OutcomeView::Timeout, now) <==> now.nanos + backoff(
            r,
            call.made as nat,
        ) <= deadline.nanos,
{
}

/// Law: the last outcome is the answer. A response is relayed, whatever its status; a
/// timeout is answered with 504, and an upstream that cannot be reached with 502.
pub proof fn law_last_outcome_is_the_answer(status: u16, why: Seq<char>)
    ensures
        (OutcomeView::Response { status }).surfaced() == ActionView::Relay,
        OutcomeView::Timeout.surfaced() matches ActionView::Fail(e) && e.reply().status == 504
            && e.reply().body == "{\"error\":\"gateway_timeout\"}"@,
        OutcomeView::Failed(why).surfaced() matches ActionView::Fail(e) && e.reply().status == 502
            && e.reply().body == "{\"error\":\"bad_gateway\"}"@ && e == ErrorView::BadGateway(why),
{
    crate::error::law_error_bodies(why, why, 0);
}

/// Law: a route without an eligible target is answered with 503; only an open circuit
/// says when to come back.
pub proof fn law_unavailable_is_503(retry_after: u64)
    ensures
        unavailable(true, retry_after).reply().status == 503,
        unavailable(true, retry_after).reply().body
            == "{\"error\":\"service_unavailable\",\"retry_after\":"@ + text::decimal(
            retry_after as nat,
        ) + "}"@,
        unavailable(false, retry_after).reply().status == 503,
        unavailable(false, retry_after).reply().body == "{\"error\":\"service_unavailable\"}"@,
{
    crate::error::law_error_bodies(Seq::empty(), Seq::empty(), retry_after);
}

/// Law: the delays add up, each one twice the one before or all the same, as far as
/// they can be counted.
pub proof fn law_delays_add_up(r: Retry, k: nat)
    requires
        backoff(r, k + 1) < u128::MAX,
    ensures
        backoff_total(r, 0) == 0,
        backoff_total(r, k + 1) == backoff_total(r, k) + backoff(r, k + 1),
{
    vstd::arithmetic::power2::lemma2_to64();
    let x = r.initial_delay.nanos as int;
    assert(x * 0 == 0 && x * (1 - 1) == 0 && x * (k + 1) == x * k + x) by (nonlinear_arith);
    let a = pow2(k) as int;
    lemma_pow2_unfold(k + 1);
    assert(x * (2 * a - 1) == x * (a - 1) + x * a) by (nonlinear_arith);
}

/// Law: the budget leaves room for every attempt. A call whose attempts keep to their
/// timeout and whose pauses are no longer than they should be is never cut short.
pub proof fn law_budget_covers_every_attempt(call: Call, r: Retry, timeout: Duration, start: Instant, now: Instant)
    requires
        1 <= call.made < r.attempts,
        budget(Some(r), Some(timeout)) is Some,
        start.nanos + budget(Some(r), Some(timeout))->0 < u128::MAX,
        call.deadline == Some(
            Instant { nanos: (start.nanos + budget(Some(r), Some(timeout))->0) as u128 },
        ),
        now.nanos <= start.nanos + call.made * timeout.nanos + backoff_total(
            r,
            (call.made - 1) as nat,
        ),
    ensures
        call.retries(Some(r), OutcomeView::Timeout, now),
{
    let n = r.attempts as int;
    let m = call.made as int;
    let t = timeout.nanos as int;
    let x = r.initial_delay.nanos as int;
    assert(m * t <= n * t) by (nonlinear_arith)
        requires
            m <= n,
            t >= 0,
    ;
    vstd::arithmetic::power2::lemma2_to64();
    lemma_grows(x, m as nat, (n - 1) as nat);
    lemma_grows(x, (m - 1) as nat, m as nat);
    assert(x * (m - 1) + x == x * m && x * m <= x * (n - 1) && 0 <= x * (n - 1))
        by (nonlinear_arith)
        requires
            0 <= x,
            1 <= m <= n - 1,
    ;
    let a = pow2((m - 1) as nat) as int;
    lemma_pow2_unfold(m as nat);
    assert(x * (2 * a - 1) == x * (a - 1) + x * a) by (nonlinear_arith);
    assert(0 <= n * t) by (nonlinear_arith)
        requires
            0 <= n,
            0 <= t,
    ;
}

/// Law: a call makes at most as many attempts as are configured: one that is told to
/// pause has made fewer, so that with the next it has made at most that many.
pub proof fn law_attempts_are_bounded(
    call: Call,
    retry: Option<Retry>,
    outcome: OutcomeView,
    now: Instant,
)
    requires
        call.made >= 1,
        call.retries(retry, outcome, now),
    ensures
        call.made + 1 <= tries(retry),
        retry is Some && tries(retry) == retry->0.attempts,
{
}

/// Law: a route without `retry` never tries twice.
pub proof fn law_no_retry_without_policy(call: Call, outcome: OutcomeView, now: Instant)
    ensures
        !call.retries(None, outcome, now),
{
}

/// Law: a retry fails over. If some other target of the ordering is eligible, the
/// attempt after a failed one goes to another target.
pub proof fn law_retry_fails_over(
    call: Call,
    targets: Seq<TargetRuntime>,
    now: Instant,
    other: int,
)
    requires
        call.valid(targets.len() as int),
        0 <= other < call.order@.len(),
        other != call.order_pos,
        targets[call.order@[other] as int].eligible(now),
    ensures
        selection(targets, call.order@, call.order_pos + 1, now) matches Selection::Target {
            target,
            ..
        } && target != call.target,
{
    let order = call.order@;
    let n = order.len() as int;
    let start = call.order_pos + 1;
    // The walk comes to `other` before it comes back to where it started from.
    let step = if other >= start {
        other - start
    } else {
        other - start + n
    };
    assert(0 <= step < n - 1);
    assert(position(n, start, step) == other) by {
        if other >= start {
            vstd::arithmetic::div_mod::lemma_small_mod(other as nat, n as nat);
        } else {
            vstd::arithmetic::div_mod::lemma_mod_add_multiples_vanish(other, n);
            vstd::arithmetic::div_mod::lemma_small_mod(other as nat, n as nat);
        }
    }
    assert(looked_at(targets, order, start, step).eligible(now));
    lemma_first_eligible(targets, order, start, now, 0);
    let found = first_eligible(targets, order, start, now, 0)->0;
    let pos = position(n, start, found);
    assert(pos != call.order_pos && 0 <= pos < n) by {
        if start + found < n {
            vstd::arithmetic::div_mod::lemma_small_mod((start + found) as nat, n as nat);
        } else {
            vstd::arithmetic::div_mod::lemma_mod_add_multiples_vanish(start + found - n, n);
            vstd::arithmetic::div_mod::lemma_small_mod((start + found - n) as nat, n as nat);
        }
    }
    let at = call.order_pos as int;
    if pos < at {
        assert(order[pos] != order[at]);
    } else {
        assert(order[at] != order[pos]);
    }
}

/// Law: the delay before a retry is the initial delay each time, or twice the one
/// before (as far as it can be counted).
pub proof fn law_backoff_doubles(r: Retry, n: nat)
    requires
        n >= 1,
    ensures
        r.backoff is Fixed ==> backoff(r, n) == r.initial_delay.nanos,
        backoff(r, 1) == r.initial_delay.nanos,
        r.backoff is Exponential ==> backoff(r, n + 1) == capped(2 * backoff(r, n)),
{
    vstd::arithmetic::power2::lemma2_to64();
    let x = r.initial_delay.nanos as int;
    assert(x * 1 == x) by (nonlinear_arith);
    lemma_doubled(x, (n - 1) as nat);
}

/// Law: the whole call may take as long as all attempts at full length and all delays
/// between them together, or as long as can be counted. A configured zero of attempts
/// is one, and nothing is bounded without a timeout or without a retry.
pub proof fn law_budget_is_the_sum(r: Retry, timeout: Duration)
    ensures
        ({
            let n = if r.attempts == 0 {
                1int
            } else {
                r.attempts as int
            };
            let sum = n * timeout.nanos + backoff_total(r, (n - 1) as nat);
            &&& sum <= u128::MAX ==> budget(Some(r), Some(timeout)) is Some && budget(
                Some(r),
                Some(timeout),
            )->0 == sum
            &&& sum > u128::MAX ==> budget(Some(r), Some(timeout)) == Some(u128::MAX)
        }),
        budget(Some(r), None) is None,
        budget(None, Some(timeout)) is None,
        budget(None, None) is None,
        tries(None) == 1,
{
    let n = tries(Some(r)) as int;
    let x = r.initial_delay.nanos as int;
    lemma_grows(x, (n - 1) as nat, (n - 1) as nat);
    assert(x * (n - 1) >= 0 && n * timeout.nanos >= 0) by (nonlinear_arith)
        requires
            x >= 0,
            n >= 1,
            timeout.nanos >= 0,
    ;
}

/// Law: the pauses of a call. What is tried again is preceded by a pause: the initial
/// delay before the first retry and, where it is not fixed, twice as long before each
/// further one. What is not tried again is the answer.
pub proof fn law_pauses(call: Call, r: Retry, outcome: OutcomeView, now: Instant)
    requires
        call.made >= 1,
    ensures
        call.answer(Some(r), outcome, now) is Pause <==> call.retries(Some(r), outcome, now),
        !call.retries(Some(r), outcome, now) ==> call.answer(Some(r), outcome, now)
            == outcome.surfaced(),
        call.answer(None, outcome, now) == outcome.surfaced(),
        call.answer(Some(r), outcome, now) matches ActionView::Pause { delay } ==> {
            &&& call.made == 1 ==> delay == r.initial_delay
            &&& r.backoff is Fixed ==> delay == r.initial_delay
            &&& r.backoff is Exponential && r.initial_delay.nanos * pow2((call.made - 1) as nat)
                <= u128::MAX ==> delay.nanos == r.initial_delay.nanos * pow2(
                (call.made - 1) as nat,
            )
        },
{
    law_backoff_doubles(r, call.made as nat);
    let x = r.initial_delay.nanos as int;
    lemma_grows(x, (call.made - 1) as nat, (call.made - 1) as nat);
    assert(x * pow2((call.made - 1) as nat) >= 0) by (nonlinear_arith)
        requires
            x >= 0,
            pow2((call.made - 1) as nat) > 0,
    ;
}

/// Law: after a pause the call goes to another target if there is an eligible one, and
/// if none is eligible the last outcome is the answer.
pub proof fn law_resuming(call: Call, targets: Seq<TargetRuntime>, now: Instant, other: int)
    requires
        call.valid(targets.len() as int),
        call.last is Some,
        0 <= other < call.order@.len(),
    ensures
        other != call.order_pos && targets[call.order@[other] as int].health.healthy
            && targets[call.order@[other] as int].breaker.verdict(now) !is Reject ==> (
        call.resumed(targets, now) matches ActionView::Send { target } && target != call.target),
        (forall|i: int|
            0 <= i < targets.len() ==> !(#[trigger] targets[i]).health.healthy
                || targets[i].breaker.verdict(now) is Reject) ==> call.resumed(targets, now)
            == call.last->0@.surfaced(),
{
    if other != call.order_pos && targets[call.order@[other] as int].eligible(now) {
        law_retry_fails_over(call, targets, now, other);
    }
    if forall|i: int|
        0 <= i < targets.len() ==> !(#[trigger] targets[i]).health.healthy
            || targets[i].breaker.verdict(now) is Reject {
        let order = call.order@;
        let start = call.order_pos + 1;
        lemma_first_eligible(targets, order, start, now, 0);
        if let Some(step) = first_eligible(targets, order, start, now, 0) {
            vstd::arithmetic::div_mod::lemma_mod_bound(start + step, order.len() as int);
            let at = order[position(order.len() as int, start, step)] as int;
            assert(looked_at(targets, order, start, step) == targets[at]);
            assert(!targets[at].health.healthy || targets[at].breaker.verdict(now) is Reject);
        }
    }
}

/// Law: a call begins with the target its ordering prefers, if that is healthy and its
/// breaker lets it through, and otherwise with the next that is. If there is none it
/// is answered at once.
pub proof fn law_opening(targets: Seq<TargetRuntime>, order: Seq<usize>, now: Instant)
    requires
        0 < order.len() <= usize::MAX,
        forall|p: int| 0 <= p < order.len() ==> #[trigger] order[p] < targets.len(),
    ensures
        targets[order[0] as int].health.healthy && targets[order[0] as int].breaker.verdict(now)
            !is Reject ==> opening(targets, order, now) == (ActionView::Send { target: order[0] }),
        opening(targets, order, now) matches ActionView::Send { target } ==> targets[
            target as int
        ].health.healthy && targets[target as int].breaker.verdict(now) !is Reject,
        (forall|i: int|
            0 <= i < targets.len() ==> !(#[trigger] targets[i]).health.healthy) ==> opening(
            targets,
            order,
            now,
        ) == ActionView::Fail(ErrorView::AllTargetsUnhealthy),
{
    crate::upstream::target::law_first_eligible_target_is_taken(targets, order, 0, now, 0);
    if forall|i: int| 0 <= i < targets.len() ==> !(#[trigger] targets[i]).health.healthy {
        lemma_first_eligible(targets, order, 0, now, 0);
        let n = order.len() as int;
        assert forall|s: int| 0 <= s < n implies !(#[trigger] looked_at(
            targets,
            order,
            0,
            s,
        )).health.healthy by {
            vstd::arithmetic::div_mod::lemma_mod_bound(0 + s, n);
            assert(order[position(n, 0, s)] < targets.len());
        }
        if let Some(step) = first_eligible(targets, order, 0, now, 0) {
            assert(!looked_at(targets, order, 0, step).health.healthy);
        }
    }
}

/// Law: the budget runs from the start of the call.
pub proof fn law_deadline(r: Retry, timeout: Duration, now: Instant)
    ensures
        deadline_of(Some(r), Some(timeout), now) matches Some(d) && (d.nanos == u128::MAX || d.nanos
            == now.nanos + budget(Some(r), Some(timeout))->0),
        now.nanos + budget(Some(r), Some(timeout))->0 <= u128::MAX ==> deadline_of(
            Some(r),
            Some(timeout),
            now,
        )->0.nanos == now.nanos + budget(Some(r), Some(timeout))->0,
        deadline_of(None, Some(timeout), now) is None,
        deadline_of(Some(r), None, now) is None,
{
}

/// Law: any closed breaker, whatever it had counted, is opened by as many failing
/// attempts on its target as its threshold: responses with any status from 500 to 599,
/// timeouts and transport errors. They have to fall within the window it counts in.
pub proof fn law_failing_attempts_open_a_closed_breaker(
    t: TargetRuntime,
    threshold: Option<u32>,
    attempts: Seq<(OutcomeView, Instant)>,
)
    requires
        t.breaker.valid(),
        t.breaker.config is Some,
        t.breaker.state is Closed,
        attempts.len() >= t.breaker.config->0.threshold,
        forall|i: int|
            0 <= i < attempts.len() ==> ((#[trigger] attempts[i]).0 matches OutcomeView::Response {
                status,
            } ==> 500 <= status <= 599),
        ({
            let times = attempts.map_values(|a: (OutcomeView, Instant)| a.1);
            counts_on(t.breaker, times) || counts_anew(t.breaker, times)
        }),
    ensures
        after_outcomes(t, threshold, attempts).breaker.state is Open,
{
    assert forall|i: int| 0 <= i < attempts.len() implies (#[trigger] attempts[i]).0.is_failure() by {
        assert(attempts[i].0 matches OutcomeView::Response { status } ==> 500 <= status <= 599);
    }
    lemma_failing_run(t, threshold, attempts);
    law_enough_failures_open(
        t.breaker,
        attempts.map_values(|a: (OutcomeView, Instant)| a.1),
    );
}

} // verus!

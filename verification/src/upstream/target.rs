//! Per-route upstream runtime: the target pool and how a target is picked from it.
//!
//! A target is *eligible* when it is healthy and its breaker permits (closed, or a
//! granted half-open trial). A request asks the balancer for a preference ordering
//! once, then walks it with [`RouteUpstream::select`], taking the first eligible
//! target and, on a retry, going on after it. When nothing is eligible the reason
//! decides the error: a target held out by a breaker means the circuit is open;
//! otherwise every target was ejected for its health.

use vstd::prelude::*;

use super::balance::{fresh_weighted, Balancer, BalancerView, MAX_WEIGHTED_TARGETS, is_permutation};
use super::breaker::{fresh_breaker, Allow, Breaker, State};
use super::health::{HealthState, Signal};
use super::{forward_uri, forwarded_uri, host_of, target_host};
use crate::clock::{Duration, Instant};
use crate::config::{Balance, CircuitBreaker, Config, Route, Target, Upstream};
use crate::error::{ErrorView, GatewayError};
use crate::text;
use crate::uri::parsed_uri;

verus! {

/// How long, in seconds, one health probe may run before it counts as failed.
pub const PROBE_TIMEOUT_SECS: u64 = 5;

/// One upstream target: its base URL and weight, and its resilience state.
pub struct TargetRuntime {
    /// Base URL as configured.
    pub url: String,
    /// Static weight.
    pub weight: u32,
    pub breaker: Breaker,
    pub health: HealthState,
}

/// How a route's targets are probed.
pub struct HealthProbe {
    pub path: String,
    pub interval: Duration,
    pub unhealthy_threshold: u32,
}

/// The outcome of looking for a target.
#[derive(Clone, Copy, Debug, PartialEq, Eq, Structural)]
pub enum Selection {
    /// An eligible target, and where in the preference order it stood, so that a
    /// retry can go on *after* it.
    Target { target: usize, order_pos: usize },
    /// No eligible target.
    Unavailable {
        /// At least one target was held out by its breaker.
        open: bool,
        /// The soonest end of a cooldown, in seconds, when `open`; otherwise zero.
        retry_after: u64,
    },
}

/// Everything a route needs to pick a target.
pub struct RouteUpstream {
    pub targets: Vec<TargetRuntime>,
    pub balancer: Balancer,
    pub health_check: Option<HealthProbe>,
}

impl TargetRuntime {
    /// A target nothing has happened to.
    pub fn new(url: String, weight: u32, cb: Option<&CircuitBreaker>) -> (t: TargetRuntime)
        ensures
            t.is_fresh(
                url@,
                weight,
                match cb {
                    Some(c) => Some(*c),
                    None => None,
                },
            ),
            t.breaker.valid(),
    {
        TargetRuntime { url, weight, breaker: Breaker::new(cb), health: HealthState::new() }
    }

    /// Whether this is a target of that URL and weight that nothing has happened to.
    pub open spec fn is_fresh(self, url: Seq<char>, weight: u32, cb: Option<CircuitBreaker>) -> bool {
        &&& self.url@ == url
        &&& self.weight == weight
        &&& self.breaker == fresh_breaker(cb)
        &&& self.health == HealthState::fresh()
    }

    /// Whether a request may be sent to this target.
    pub open spec fn eligible(self, now: Instant) -> bool {
        self.health.healthy && self.breaker.permits(now)
    }

    /// Whether this target is in rotation but for its breaker.
    pub open spec fn held_open(self, now: Instant) -> bool {
        self.health.healthy && !self.breaker.permits(now)
    }

    /// The seconds this target's breaker asks a request to wait.
    pub open spec fn wait(self, now: Instant) -> u64 {
        self.breaker.verdict(now)->retry_after
    }
}

/// The position looked at after `step` steps from `start`, wrapping around.
pub open spec fn position(n: int, start: int, step: int) -> int {
    (start + step) % n
}

/// The target looked at after `step` steps.
pub open spec fn looked_at(
    targets: Seq<TargetRuntime>,
    order: Seq<usize>,
    start: int,
    step: int,
) -> TargetRuntime {
    targets[order[position(order.len() as int, start, step)] as int]
}

/// The first step, from `step` on, that finds an eligible target.
pub open spec fn first_eligible(
    targets: Seq<TargetRuntime>,
    order: Seq<usize>,
    start: int,
    now: Instant,
    step: int,
) -> Option<int>
    decreases order.len() - step,
{
    if step >= order.len() {
        None
    } else if looked_at(targets, order, start, step).eligible(now) {
        Some(step)
    } else {
        first_eligible(targets, order, start, now, step + 1)
    }
}

/// The shortest wait that any of the first `k` targets looked at asks for; the
/// greatest possible one when none asks for any.
pub open spec fn soonest(
    targets: Seq<TargetRuntime>,
    order: Seq<usize>,
    start: int,
    now: Instant,
    k: int,
) -> u64
    decreases k,
{
    if k <= 0 {
        u64::MAX
    } else {
        let before = soonest(targets, order, start, now, k - 1);
        let t = looked_at(targets, order, start, k - 1);
        if t.held_open(now) && t.wait(now) < before {
            t.wait(now)
        } else {
            before
        }
    }
}

/// Whether any of the first `k` targets looked at is held out by its breaker.
pub open spec fn any_open(
    targets: Seq<TargetRuntime>,
    order: Seq<usize>,
    start: int,
    now: Instant,
    k: int,
) -> bool {
    exists|step: int|
        0 <= step < k && (#[trigger] looked_at(targets, order, start, step)).held_open(now)
}

/// What a walk along `order` from `start` finds.
pub open spec fn selection(
    targets: Seq<TargetRuntime>,
    order: Seq<usize>,
    start: int,
    now: Instant,
) -> Selection {
    let n = order.len() as int;
    match first_eligible(targets, order, start, now, 0) {
        Some(step) => {
            let pos = position(n, start, step);
            Selection::Target { target: order[pos], order_pos: pos as usize }
        },
        None => {
            let open = any_open(targets, order, start, now, n);
            Selection::Unavailable {
                open,
                retry_after: if open {
                    soonest(targets, order, start, now, n)
                } else {
                    0
                },
            }
        },
    }
}

/// `t` after its breaker was asked for permission.
pub open spec fn asked(t: TargetRuntime, now: Instant) -> TargetRuntime {
    TargetRuntime { breaker: t.breaker.asked(now), ..t }
}

/// The pool after a walk: the breaker of the target that was found has been asked,
/// and nothing else has changed.
pub open spec fn pool_after(
    targets: Seq<TargetRuntime>,
    order: Seq<usize>,
    start: int,
    now: Instant,
) -> Seq<TargetRuntime> {
    match selection(targets, order, start, now) {
        Selection::Target { target, .. } => targets.update(
            target as int,
            asked(targets[target as int], now),
        ),
        Selection::Unavailable { .. } => targets,
    }
}

impl RouteUpstream {
    /// The invariant: every breaker and the balancer are in order, and the balancer
    /// is made for this many targets.
    pub open spec fn valid(self) -> bool {
        &&& self.balancer@.valid()
        &&& self.balancer@.covers(self.targets@.len() as int)
        &&& forall|i: int| 0 <= i < self.targets@.len() ==> (#[trigger] self.targets@[i]).breaker.valid()
    }

    /// The balancer's preference ordering for one request: asked for once, then
    /// walked across attempts.
    pub fn preference_order(&mut self) -> (order: Vec<usize>)
        requires
            old(self).valid(),
        ensures
            final(self).valid(),
            order@ == old(self).balancer@.order(old(self).targets@.len() as int),
            is_permutation(order@, old(self).targets@.len() as int),
            final(self).balancer@ == old(self).balancer@.next(),
            final(self).targets == old(self).targets,
            final(self).health_check == old(self).health_check,
    {
        let n: usize = self.targets.len();
        self.balancer.preference_order(n)
    }

    /// Walk `order` from position `start`, wrapping around, to the first eligible
    /// target. Unhealthy targets are passed over; targets held out by their breaker
    /// are passed over too but noted, so that the caller can tell the two reasons
    /// apart. A granted half-open trial makes its target eligible.
    pub fn select(&mut self, order: &[usize], start: usize, now: Instant) -> (sel: Selection)
        requires
            old(self).valid(),
            forall|i: int| 0 <= i < order@.len() ==> #[trigger] order@[i] < old(self).targets@.len(),
        ensures
            final(self).valid(),
            sel == selection(old(self).targets@, order@, start as int, now),
            final(self).targets@ == pool_after(old(self).targets@, order@, start as int, now),
            final(self).balancer == old(self).balancer,
            final(self).health_check == old(self).health_check,
    {
        let n: usize = order.len();
        let ghost pool = self.targets@;
        let mut saw_open: bool = false;
        let mut min_retry: u64 = u64::MAX;
        let mut step: usize = 0;
        let mut pos: usize = if n == 0 {
            0
        } else {
            start % n
        };
        while step < n
            invariant
                n == order@.len(),
                step <= n,
                self.valid(),
                self.targets@ == pool,
                self.balancer == old(self).balancer,
                self.health_check == old(self).health_check,
                pool == old(self).targets@,
                forall|i: int| 0 <= i < order@.len() ==> #[trigger] order@[i] < pool.len(),
                n > 0 ==> pos == position(n as int, start as int, step as int),
                first_eligible(pool, order@, start as int, now, 0) == first_eligible(
                    pool,
                    order@,
                    start as int,
                    now,
                    step as int,
                ),
                saw_open == any_open(pool, order@, start as int, now, step as int),
                min_retry == soonest(pool, order@, start as int, now, step as int),
            decreases n - step,
        {
            proof {
                vstd::arithmetic::div_mod::lemma_mod_bound(start + step, n as int);
                lemma_next_position(n as int, start as int, step as int);
            }
            let t: usize = order[pos];
            let ghost seen = looked_at(pool, order@, start as int, step as int);
            assert(seen == pool[t as int]);
            if self.targets[t].health.is_healthy() {
                assert(pool[t as int].breaker.valid());
                match self.targets[t].breaker.allow(now) {
                    Allow::Reject { retry_after } => {
                        assert(self.targets@ =~= pool);
                        assert(seen.held_open(now));
                        saw_open = true;
                        if retry_after < min_retry {
                            min_retry = retry_after;
                        }
                    },
                    _ => {
                        assert(seen.eligible(now));
                        assert(self.targets@ =~= pool.update(t as int, asked(pool[t as int], now)));
                        return Selection::Target { target: t, order_pos: pos };
                    },
                }
            }
            assert(any_open(pool, order@, start as int, now, step + 1) == (any_open(
                pool,
                order@,
                start as int,
                now,
                step as int,
            ) || seen.held_open(now)));
            step += 1;
            pos = if pos + 1 == n {
                0
            } else {
                pos + 1
            };
        }
        Selection::Unavailable {
            open: saw_open,
            retry_after: if saw_open {
                min_retry
            } else {
                0
            },
        }
    }
}

/// One step further is one position further, wrapping around.
proof fn lemma_next_position(n: int, start: int, step: int)
    requires
        n > 0,
    ensures
        position(n, start, step + 1) == if position(n, start, step) + 1 == n {
            0
        } else {
            position(n, start, step) + 1
        },
{
    let at = start + step;
    vstd::arithmetic::div_mod::lemma_mod_bound(at, n);
    vstd::arithmetic::div_mod::lemma_add_mod_noop_right(1, at, n);
    assert((1 + at % n) % n == (1 + at) % n);
    if at % n + 1 == n {
        vstd::arithmetic::div_mod::lemma_mod_self_0(n);
    } else {
        vstd::arithmetic::div_mod::lemma_small_mod((at % n + 1) as nat, n as nat);
    }
}

/// A first eligible step is the first one, and without one nothing is eligible.
pub proof fn lemma_first_eligible(
    targets: Seq<TargetRuntime>,
    order: Seq<usize>,
    start: int,
    now: Instant,
    step: int,
)
    ensures
        match first_eligible(targets, order, start, now, step) {
            Some(found) => {
                &&& step <= found < order.len()
                &&& looked_at(targets, order, start, found).eligible(now)
                &&& forall|s: int|
                    step <= s < found ==> !(#[trigger] looked_at(targets, order, start, s)).eligible(
                        now,
                    )
            },
            None => forall|s: int|
                step <= s < order.len() ==> !(#[trigger] looked_at(
                    targets,
                    order,
                    start,
                    s,
                )).eligible(now),
        },
    decreases order.len() - step,
{
    if step < order.len() && !looked_at(targets, order, start, step).eligible(now) {
        lemma_first_eligible(targets, order, start, now, step + 1);
    }
}

/// The index before a position in a walk from `start`: the step that reaches it.
proof fn lemma_every_position_is_reached(n: int, start: int, pos: int)
    requires
        n > 0,
        0 <= pos < n,
    ensures
        0 <= (pos - start) % n < n,
        position(n, start, (pos - start) % n) == pos,
{
    vstd::arithmetic::div_mod::lemma_mod_bound(pos - start, n);
    vstd::arithmetic::div_mod::lemma_add_mod_noop_right(start, pos - start, n);
    vstd::arithmetic::div_mod::lemma_small_mod(pos as nat, n as nat);
}

/// Law: a target that is selected is healthy and its breaker lets the request
/// through, and it is selected whenever some target of the ordering is eligible.
pub proof fn law_select_finds_an_eligible_target(
    targets: Seq<TargetRuntime>,
    order: Seq<usize>,
    start: int,
    now: Instant,
    pos: int,
)
    requires
        0 <= pos < order.len(),
    ensures
        selection(targets, order, start, now) matches Selection::Target { target, .. }
            ==> targets[target as int].eligible(now),
        targets[order[pos] as int].eligible(now) ==> selection(targets, order, start, now)
            is Target,
{
    lemma_first_eligible(targets, order, start, now, 0);
    let step = (pos - start) % (order.len() as int);
    lemma_every_position_is_reached(order.len() as int, start, pos);
    assert(looked_at(targets, order, start, step) == targets[order[pos] as int]);
}

/// Law: when nothing is eligible, the circuit is reported open exactly if some
/// target of the ordering is healthy but held out by its breaker; otherwise every
/// one of them was ejected for its health.
pub proof fn law_unavailable_names_the_reason(
    targets: Seq<TargetRuntime>,
    order: Seq<usize>,
    start: int,
    now: Instant,
    pos: int,
)
    requires
        0 <= pos < order.len(),
        selection(targets, order, start, now) is Unavailable,
    ensures
        targets[order[pos] as int].held_open(now) ==> selection(targets, order, start, now)->open,
        !selection(targets, order, start, now)->open ==> !targets[order[pos] as int].health.healthy,
        selection(targets, order, start, now)->open ==> exists|p: int|
            0 <= p < order.len() && targets[#[trigger] order[p] as int].held_open(now),
{
    if selection(targets, order, start, now)->open {
        let n = order.len() as int;
        let s = choose|s: int|
            0 <= s < n && (#[trigger] looked_at(targets, order, start, s)).held_open(now);
        vstd::arithmetic::div_mod::lemma_mod_bound(start + s, n);
        assert(targets[order[position(n, start, s)] as int].held_open(now));
    }
    lemma_first_eligible(targets, order, start, now, 0);
    let step = (pos - start) % (order.len() as int);
    lemma_every_position_is_reached(order.len() as int, start, pos);
    assert(looked_at(targets, order, start, step) == targets[order[pos] as int]);
}

/// Law: the wait that is reported with an open circuit is the shortest that any
/// held-out target asks for.
pub proof fn law_reported_wait_is_soonest(
    targets: Seq<TargetRuntime>,
    order: Seq<usize>,
    start: int,
    now: Instant,
    pos: int,
)
    requires
        0 <= pos < order.len(),
        selection(targets, order, start, now) is Unavailable,
        targets[order[pos] as int].held_open(now),
    ensures
        selection(targets, order, start, now)->retry_after <= targets[order[pos] as int].wait(now),
        exists|p: int|
            0 <= p < order.len() && targets[#[trigger] order[p] as int].held_open(now)
                && targets[order[p] as int].wait(now) == selection(
                targets,
                order,
                start,
                now,
            )->retry_after,
{
    let n = order.len() as int;
    let step = (pos - start) % n;
    lemma_every_position_is_reached(n, start, pos);
    assert(looked_at(targets, order, start, step) == targets[order[pos] as int]);
    lemma_soonest(targets, order, start, now, n, step);
    lemma_soonest_is_asked_for(targets, order, start, now, n);
    if soonest(targets, order, start, now, n) < u64::MAX {
        let s = choose|s: int|
            0 <= s < n && (#[trigger] looked_at(targets, order, start, s)).held_open(now)
                && looked_at(targets, order, start, s).wait(now) == soonest(
                targets,
                order,
                start,
                now,
                n,
            );
        vstd::arithmetic::div_mod::lemma_mod_bound(start + s, n);
        assert(targets[order[position(n, start, s)] as int].held_open(now));
    } else {
        assert(targets[order[pos] as int].wait(now) == u64::MAX);
    }
}

/// A shortest wait below the greatest is one that some target asks for.
proof fn lemma_soonest_is_asked_for(
    targets: Seq<TargetRuntime>,
    order: Seq<usize>,
    start: int,
    now: Instant,
    k: int,
)
    ensures
        soonest(targets, order, start, now, k) < u64::MAX ==> exists|s: int|
            0 <= s < k && (#[trigger] looked_at(targets, order, start, s)).held_open(now)
                && looked_at(targets, order, start, s).wait(now) == soonest(
                targets,
                order,
                start,
                now,
                k,
            ),
    decreases k,
{
    if k > 0 {
        lemma_soonest_is_asked_for(targets, order, start, now, k - 1);
        let t = looked_at(targets, order, start, k - 1);
        if soonest(targets, order, start, now, k - 1) < u64::MAX && soonest(
            targets,
            order,
            start,
            now,
            k,
        ) == soonest(targets, order, start, now, k - 1) {
            let s = choose|s: int|
                0 <= s < k - 1 && (#[trigger] looked_at(targets, order, start, s)).held_open(now)
                    && looked_at(targets, order, start, s).wait(now) == soonest(
                    targets,
                    order,
                    start,
                    now,
                    k - 1,
                );
            assert(0 <= s < k && looked_at(targets, order, start, s).held_open(now));
        }
    }
}

proof fn lemma_soonest(
    targets: Seq<TargetRuntime>,
    order: Seq<usize>,
    start: int,
    now: Instant,
    k: int,
    step: int,
)
    requires
        0 <= step < k,
        looked_at(targets, order, start, step).held_open(now),
    ensures
        soonest(targets, order, start, now, k) <= looked_at(targets, order, start, step).wait(now),
    decreases k,
{
    if step < k - 1 {
        lemma_soonest(targets, order, start, now, k - 1, step);
    }
}

/// Per-route upstream table, in the order of the configured routes.
pub struct UpstreamRegistry {
    pub routes: Vec<RouteUpstream>,
}

/// The balancer a route starts with. An explicit `balance` wins; several targets
/// without one are served round-robin; a lone target needs no balancing.
pub open spec fn fresh_balancer(up: Upstream) -> BalancerView {
    match up.balance {
        Some(Balance::RoundRobin) => BalancerView::RoundRobin { cursor: 0 },
        Some(Balance::WeightedRoundRobin) => fresh_weighted(
            up.targets@.map_values(|t: Target| t.weight),
        ),
        None => if up.url is None && up.targets@.len() > 1 {
            BalancerView::RoundRobin { cursor: 0 }
        } else {
            BalancerView::Single
        },
    }
}

/// Whether `built` is the runtime of a route nothing has happened to: one target
/// for a `url`, one per entry of `targets` otherwise.
pub open spec fn is_fresh_route(route: Route, built: RouteUpstream) -> bool {
    let up = route.upstream;
    let cb = route.circuit_breaker;
    &&& up.url is Some ==> built.targets@.len() == 1 && built.targets@[0].is_fresh(
        up.url->0@,
        1,
        cb,
    )
    &&& up.url is None ==> built.targets@.len() == up.targets@.len() && forall|j: int|
        0 <= j < up.targets@.len() ==> (#[trigger] built.targets@[j]).is_fresh(
            up.targets@[j].url@,
            up.targets@[j].weight,
            cb,
        )
    &&& built.balancer@ == fresh_balancer(up)
    &&& built.balancer@.valid()
    &&& match up.health_check {
        Some(hc) => built.health_check is Some && built.health_check->0.path@ == hc.path@
            && built.health_check->0.interval == hc.interval
            && built.health_check->0.unhealthy_threshold == hc.unhealthy_threshold,
        None => built.health_check is None,
    }
}

/// Law: the runtime of every route of a valid configuration satisfies its
/// invariant, so a preference ordering can be asked for and walked.
pub proof fn law_valid_config_gives_valid_pools(config: Config, i: int, built: RouteUpstream)
    requires
        crate::config::is_valid(config),
        0 <= i < config.routes@.len(),
        is_fresh_route(config.routes@[i], built),
    ensures
        built.valid(),
        built.targets@.len() > 0,
{
    let up = config.routes@[i].upstream;
    assert(crate::config::route_problem(config.routes@, i) is None);
    crate::config::law_valid_routes_have_targets(config, i);
    assert forall|j: int| 0 <= j < built.targets@.len() implies (#[trigger] built.targets@[j]).breaker.valid() by {
        if up.url is None {
            assert(built.targets@[j].is_fresh(
                up.targets@[j].url@,
                up.targets@[j].weight,
                config.routes@[i].circuit_breaker,
            ));
        }
    }
}

/// Whether a route's weights can be summed: only a weighted balance sums them.
pub open spec fn fits(route: Route) -> bool {
    route.upstream.balance == Some(Balance::WeightedRoundRobin) ==> route.upstream.targets@.len()
        <= MAX_WEIGHTED_TARGETS
}

/// The runtime for one route.
fn build_route(route: &Route) -> (built: RouteUpstream)
    requires
        fits(*route),
    ensures
        is_fresh_route(*route, built),
{
    let up: &Upstream = &route.upstream;
    let cb: Option<&CircuitBreaker> = route.circuit_breaker.as_ref();
    let mut targets: Vec<TargetRuntime> = Vec::new();
    match &up.url {
        Some(url) => {
            targets.push(TargetRuntime::new(url.clone(), 1, cb));
        },
        None => {
            let mut j: usize = 0;
            while j < up.targets.len()
                invariant
                    j <= up.targets@.len(),
                    targets@.len() == j,
                    up == route.upstream,
                    cb == (match route.circuit_breaker {
                        Some(c) => Some(&c),
                        None => None,
                    }),
                    forall|m: int|
                        0 <= m < j ==> (#[trigger] targets@[m]).is_fresh(
                            up.targets@[m].url@,
                            up.targets@[m].weight,
                            route.circuit_breaker,
                        ),
                decreases up.targets@.len() - j,
            {
                let t = TargetRuntime::new(up.targets[j].url.clone(), up.targets[j].weight, cb);
                targets.push(t);
                j += 1;
            }
        },
    }
    let balancer = match up.balance {
        Some(Balance::RoundRobin) => Balancer::round_robin(),
        Some(Balance::WeightedRoundRobin) => {
            let weights = weights_of(&up.targets);
            Balancer::weighted(weights.as_slice())
        },
        None => if targets.len() > 1 {
            Balancer::round_robin()
        } else {
            Balancer::Single
        },
    };
    let health_check = match &up.health_check {
        Some(hc) => Some(
            HealthProbe {
                path: hc.path.clone(),
                interval: hc.interval,
                unhealthy_threshold: hc.unhealthy_threshold,
            },
        ),
        None => None,
    };
    RouteUpstream { targets, balancer, health_check }
}

/// The configured weights, in order.
fn weights_of(targets: &Vec<Target>) -> (weights: Vec<u32>)
    ensures
        weights@ == targets@.map_values(|t: Target| t.weight),
{
    let mut weights: Vec<u32> = Vec::new();
    let mut j: usize = 0;
    while j < targets.len()
        invariant
            j <= targets@.len(),
            weights@ == targets@.map_values(|t: Target| t.weight).take(j as int),
        decreases targets@.len() - j,
    {
        let ghost all = targets@.map_values(|t: Target| t.weight);
        weights.push(targets[j].weight);
        assert(all.take(j + 1) =~= all.take(j as int).push(all[j as int]));
        j += 1;
    }
    let ghost all = targets@.map_values(|t: Target| t.weight);
    assert(all.take(all.len() as int) =~= all);
    weights
}

impl UpstreamRegistry {
    /// Build the pool for every route.
    pub fn build(config: &Config) -> (r: UpstreamRegistry)
        requires
            forall|i: int| 0 <= i < config.routes@.len() ==> fits(#[trigger] config.routes@[i]),
        ensures
            r.routes@.len() == config.routes@.len(),
            forall|i: int|
                0 <= i < config.routes@.len() ==> is_fresh_route(
                    config.routes@[i],
                    #[trigger] r.routes@[i],
                ),
            crate::config::is_valid(*config) ==> forall|i: int|
                0 <= i < config.routes@.len() ==> (#[trigger] r.routes@[i]).valid(),
    {
        let mut routes: Vec<RouteUpstream> = Vec::new();
        let mut i: usize = 0;
        while i < config.routes.len()
            invariant
                i <= config.routes@.len(),
                routes@.len() == i,
                forall|j: int| 0 <= j < config.routes@.len() ==> fits(#[trigger] config.routes@[j]),
                forall|j: int|
                    0 <= j < i ==> is_fresh_route(config.routes@[j], #[trigger] routes@[j]),
            decreases config.routes@.len() - i,
        {
            routes.push(build_route(&config.routes[i]));
            i += 1;
        }
        proof {
            if crate::config::is_valid(*config) {
                assert forall|j: int| 0 <= j < config.routes@.len() implies (#[trigger] routes@[j]).valid() by {
                    law_valid_config_gives_valid_pools(*config, j, routes@[j]);
                }
            }
        }
        UpstreamRegistry { routes }
    }

    /// Borrow a route's pool.
    pub fn route(&self, route_index: usize) -> (r: &RouteUpstream)
        requires
            route_index < self.routes@.len(),
        ensures
            *r == self.routes@[route_index as int],
    {
        &self.routes[route_index]
    }
}

/// Where a request is sent: the URI, and the `Host` it is addressed by.
pub struct Address {
    pub uri: String,
    pub host: String,
}

/// What the forwarded path makes of a target: the `Host` of its URI, or why that
/// cannot be dialled.
pub open spec fn addressed(t: TargetRuntime, path: Seq<char>) -> Result<Seq<char>, ErrorView> {
    let uri = forwarded_uri(t.url@, path);
    host_of(uri, parsed_uri(uri))
}

impl RouteUpstream {
    /// Where a request with that path would be sent, for every target. A path with
    /// which some target cannot be dialled is refused before any target is asked,
    /// so that no target is blamed for it.
    pub fn addresses(&self, path: &str) -> (r: Result<Vec<Address>, GatewayError>)
        ensures
            match r {
                Ok(list) => list@.len() == self.targets@.len() && forall|i: int|
                    0 <= i < self.targets@.len() ==> (#[trigger] list@[i]).uri@ == forwarded_uri(
                        self.targets@[i].url@,
                        path@,
                    ) && addressed(self.targets@[i], path@) == Ok::<Seq<char>, ErrorView>(
                        list@[i].host@,
                    ),
                Err(e) => exists|i: int|
                    0 <= i < self.targets@.len() && addressed(#[trigger] self.targets@[i], path@)
                        == Err::<Seq<char>, ErrorView>(e@) && forall|j: int|
                        0 <= j < i ==> addressed(#[trigger] self.targets@[j], path@) is Ok,
            },
    {
        let mut list: Vec<Address> = Vec::new();
        let mut i: usize = 0;
        while i < self.targets.len()
            invariant
                i <= self.targets@.len(),
                list@.len() == i,
                forall|j: int|
                    0 <= j < i ==> (#[trigger] list@[j]).uri@ == forwarded_uri(
                        self.targets@[j].url@,
                        path@,
                    ) && addressed(self.targets@[j], path@) == Ok::<Seq<char>, ErrorView>(
                        list@[j].host@,
                    ),
            decreases self.targets@.len() - i,
        {
            let uri = forward_uri(self.targets[i].url.as_str(), path);
            match target_host(uri.as_str()) {
                Ok(host) => {
                    list.push(Address { uri, host });
                },
                Err(e) => {
                    proof {
                        assert forall|j: int| 0 <= j < i implies addressed(
                            #[trigger] self.targets@[j],
                            path@,
                        ) is Ok by {
                            assert(list@[j].uri@ == forwarded_uri(self.targets@[j].url@, path@));
                        }
                        assert(addressed(self.targets@[i as int], path@) == Err::<
                            Seq<char>,
                            ErrorView,
                        >(e@));
                    }
                    return Err(e);
                },
            }
            i += 1;
        }
        Ok(list)
    }
}

/// The URL of a health probe: the base without its end slashes, then the path.
pub open spec fn probe_target(base: Seq<char>, path: Seq<char>) -> Seq<char> {
    text::without_end_slashes(base) + path
}

/// Executable form of [`probe_target`].
pub fn probe_url(base: &str, path: &str) -> (s: String)
    ensures
        s@ == probe_target(base@, path@),
{
    let mut s = text::trim_end_slashes(base).to_string();
    s.append(path);
    s
}

/// Whether a probe that got that status, if any, passes.
pub open spec fn passes_probe(status: Option<u16>) -> bool {
    match status {
        Some(s) => 200 <= s <= 299,
        None => false,
    }
}

/// Law: a probe passes on every status from 200 to 299, on no other, and not without
/// a response.
pub proof fn law_what_passes_a_probe(status: u16)
    ensures
        passes_probe(Some(status)) <==> status / 100 == 2,
        !passes_probe(None),
{
}

/// Whether a probe passes: only on a 2xx. `None` stands for a probe that got no
/// response: a transport error, a timeout or a URL that cannot be dialled.
pub fn probe_passes(status: Option<u16>) -> (r: bool)
    ensures
        r == (status is Some && 200 <= status->0 <= 299),
        r == passes_probe(status),
{
    match status {
        Some(s) => 200 <= s && s <= 299,
        None => false,
    }
}

/// `t` after a health signal.
pub open spec fn signalled(t: TargetRuntime, signal: Signal, threshold: u32) -> TargetRuntime {
    TargetRuntime { health: t.health.after(signal, threshold), ..t }
}

impl RouteUpstream {
    /// The pool after a target was probed, on a route with a health check.
    pub open spec fn pool_after_probe(self, target: int, passed: bool) -> Seq<TargetRuntime> {
        match self.health_check {
            Some(hc) => self.targets@.update(
                target,
                signalled(
                    self.targets@[target],
                    if passed {
                        Signal::ProbeSuccess
                    } else {
                        Signal::ProbeFailure
                    },
                    hc.unhealthy_threshold,
                ),
            ),
            None => self.targets@,
        }
    }

    /// Record the result of probing a target. A route without a health check
    /// probes nothing and records nothing.
    pub fn record_probe(&mut self, target: usize, passed: bool)
        requires
            old(self).valid(),
            target < old(self).targets@.len(),
        ensures
            final(self).valid(),
            final(self).balancer == old(self).balancer,
            final(self).health_check == old(self).health_check,
            final(self).targets@ == (match old(self).health_check {
                Some(hc) => old(self).targets@.update(
                    target as int,
                    signalled(
                        old(self).targets@[target as int],
                        if passed {
                            Signal::ProbeSuccess
                        } else {
                            Signal::ProbeFailure
                        },
                        hc.unhealthy_threshold,
                    ),
                ),
                None => old(self).targets@,
            }),
            final(self).targets@ == old(self).pool_after_probe(target as int, passed),
    {
        let ghost pool = self.targets@;
        match &self.health_check {
            Some(hc) => {
                let threshold: u32 = hc.unhealthy_threshold;
                if passed {
                    self.targets[target].health.record_probe_success();
                    assert(self.targets@ =~= pool.update(
                        target as int,
                        signalled(pool[target as int], Signal::ProbeSuccess, threshold),
                    ));
                } else {
                    self.targets[target].health.record_probe_failure(threshold);
                    assert(self.targets@ =~= pool.update(
                        target as int,
                        signalled(pool[target as int], Signal::ProbeFailure, threshold),
                    ));
                }
            },
            None => {},
        }
    }

    /// The pool after live traffic to a target succeeded or failed: its breaker
    /// counts it, and so does its health when the route has a health check to bring
    /// it back in.
    pub open spec fn pool_after_live(
        self,
        target: int,
        succeeded: bool,
        now: Instant,
    ) -> Seq<TargetRuntime> {
        let t = self.targets@[target];
        let breaker = if succeeded {
            t.breaker.succeeded(now)
        } else {
            t.breaker.failed(now)
        };
        let health = match self.health_check {
            Some(hc) => t.health.after(
                if succeeded {
                    Signal::LiveSuccess
                } else {
                    Signal::LiveFailure
                },
                hc.unhealthy_threshold,
            ),
            None => t.health,
        };
        self.targets@.update(target, TargetRuntime { breaker, health, ..t })
    }

    /// Record how live traffic to a target went.
    pub fn record_live(&mut self, target: usize, succeeded: bool, now: Instant)
        requires
            old(self).valid(),
            target < old(self).targets@.len(),
        ensures
            final(self).valid(),
            final(self).balancer == old(self).balancer,
            final(self).health_check == old(self).health_check,
            final(self).targets@ == old(self).pool_after_live(target as int, succeeded, now),
    {
        let ghost pool = self.targets@;
        assert(pool[target as int].breaker.valid());
        if succeeded {
            self.targets[target].breaker.record_success(now);
        } else {
            self.targets[target].breaker.record_failure(now);
        }
        match &self.health_check {
            Some(hc) => {
                let threshold: u32 = hc.unhealthy_threshold;
                if succeeded {
                    self.targets[target].health.record_live_success();
                    assert(self.targets@[target as int].health == pool[target as int].health.after(
                        Signal::LiveSuccess,
                        threshold,
                    ));
                } else {
                    self.targets[target].health.record_live_failure(threshold);
                }
            },
            None => {},
        }
        assert(self.targets@ =~= old(self).pool_after_live(target as int, succeeded, now));
    }
}

/// How many steps after `start` a walk along `n` positions comes to `pos`.
pub open spec fn steps_to(n: int, start: int, pos: int) -> int {
    if pos >= start {
        pos - start
    } else {
        pos - start + n
    }
}

/// Law: the walk takes the first target it comes to that is healthy and that its
/// breaker lets through, going on from `start` and around the end. It says where it
/// found the target, and whatever it passed over was unhealthy or held out.
pub proof fn law_first_eligible_target_is_taken(
    targets: Seq<TargetRuntime>,
    order: Seq<usize>,
    start: int,
    now: Instant,
    pos: int,
)
    requires
        0 <= start < order.len(),
        order.len() <= usize::MAX,
        0 <= pos < order.len(),
    ensures
        selection(targets, order, start, now) matches Selection::Target { target, order_pos } ==> {
            let n = order.len() as int;
            let passed = targets[order[pos] as int];
            &&& order_pos < n
            &&& target == order[order_pos as int]
            &&& targets[target as int].health.healthy
            &&& targets[target as int].breaker.verdict(now) !is Reject
            &&& steps_to(n, start, pos) < steps_to(n, start, order_pos as int)
                ==> !passed.health.healthy || passed.breaker.verdict(now) is Reject
        },
        selection(targets, order, start, now) is Unavailable ==> {
            let passed = targets[order[pos] as int];
            !passed.health.healthy || passed.breaker.verdict(now) is Reject
        },
{
    let n = order.len() as int;
    lemma_first_eligible(targets, order, start, now, 0);
    lemma_every_position_is_reached(n, start, pos);
    lemma_steps(n, start, pos);
    let step = (pos - start) % n;
    assert(looked_at(targets, order, start, step) == targets[order[pos] as int]);
    if let Some(found) = first_eligible(targets, order, start, now, 0) {
        let at = position(n, start, found);
        vstd::arithmetic::div_mod::lemma_mod_bound(start + found, n);
        lemma_steps(n, start, at);
        vstd::arithmetic::div_mod::lemma_sub_mod_noop_right(start + found, start, n);
        assert(looked_at(targets, order, start, found) == targets[order[at] as int]);
        lemma_step_back(n, start, found);
    }
}

/// The steps to a position are its distance from the start, taken around.
proof fn lemma_steps(n: int, start: int, pos: int)
    requires
        n > 0,
        0 <= start < n,
        0 <= pos < n,
    ensures
        (pos - start) % n == steps_to(n, start, pos),
{
    if pos >= start {
        vstd::arithmetic::div_mod::lemma_small_mod((pos - start) as nat, n as nat);
    } else {
        vstd::arithmetic::div_mod::lemma_mod_add_multiples_vanish(pos - start, n);
        vstd::arithmetic::div_mod::lemma_small_mod((pos - start + n) as nat, n as nat);
    }
}

/// The steps to where a walk is after some steps are those steps.
proof fn lemma_step_back(n: int, start: int, step: int)
    requires
        n > 0,
        0 <= start < n,
        0 <= step < n,
    ensures
        steps_to(n, start, position(n, start, step)) == step,
{
    if start + step < n {
        vstd::arithmetic::div_mod::lemma_small_mod((start + step) as nat, n as nat);
    } else {
        vstd::arithmetic::div_mod::lemma_mod_add_multiples_vanish(start + step - n, n);
        vstd::arithmetic::div_mod::lemma_small_mod((start + step - n) as nat, n as nat);
    }
}

/// Law: choosing a target asks that target's breaker and no other. A granted trial
/// takes its slot; nothing else about any target changes.
pub proof fn law_selection_asks_one_breaker(
    targets: Seq<TargetRuntime>,
    order: Seq<usize>,
    start: int,
    now: Instant,
    i: int,
)
    requires
        0 <= i < targets.len(),
        forall|p: int| 0 <= p < order.len() ==> #[trigger] order[p] < targets.len(),
    ensures
        ({
            let after = pool_after(targets, order, start, now);
            let found = selection(targets, order, start, now);
            let chosen = found is Target && found->target == i;
            &&& after.len() == targets.len()
            &&& !chosen ==> after[i] == targets[i]
            &&& chosen && targets[i].breaker.verdict(now) == Allow::Permit ==> after[i]
                == targets[i]
            &&& chosen && targets[i].breaker.verdict(now) == Allow::PermitProbe
                ==> after[i].breaker.state == State::HalfOpen
            &&& after[i].url == targets[i].url && after[i].weight == targets[i].weight
            &&& after[i].health == targets[i].health
            &&& after[i].breaker.config == targets[i].breaker.config
        }),
{
    lemma_first_eligible(targets, order, start, now, 0);
    if order.len() > 0 {
        let n = order.len() as int;
        if let Some(found) = first_eligible(targets, order, start, now, 0) {
            vstd::arithmetic::div_mod::lemma_mod_bound(start + found, n);
            assert(order[position(n, start, found)] < targets.len());
        }
    }
}

/// Law: how live traffic to a target goes is no other target's concern, and without a
/// health check it ejects nothing.
pub proof fn law_traffic_concerns_one_target(
    up: RouteUpstream,
    target: int,
    succeeded: bool,
    now: Instant,
    i: int,
)
    requires
        0 <= target < up.targets@.len(),
        0 <= i < up.targets@.len(),
    ensures
        ({
            let after = up.pool_after_live(target, succeeded, now);
            &&& i != target ==> after[i] == up.targets@[i]
            &&& up.health_check is None ==> after[i].health == up.targets@[i].health
            &&& after[target].url == up.targets@[target].url
            &&& after[target].weight == up.targets@[target].weight
            &&& succeeded ==> after[target].breaker == up.targets@[target].breaker.succeeded(now)
            &&& !succeeded ==> after[target].breaker == up.targets@[target].breaker.failed(now)
            &&& succeeded ==> after[target].health.healthy == up.targets@[target].health.healthy
        }),
{
}

/// Law: a probe says nothing about the breaker.
pub proof fn law_probes_leave_the_breaker(t: TargetRuntime, signal: Signal, threshold: u32)
    ensures
        signalled(t, signal, threshold).breaker == t.breaker,
        signalled(t, signal, threshold).url == t.url,
        signalled(t, signal, threshold).weight == t.weight,
        signalled(t, Signal::ProbeSuccess, threshold).health.healthy,
{
}

/// Law: what a route starts with. A `url` is one target of weight one; `targets` are
/// one target each, with their weights, in their order. Every one is healthy and lets
/// requests through.
pub proof fn law_fresh_pool(route: Route, built: RouteUpstream, i: int, now: Instant)
    requires
        is_fresh_route(route, built),
        0 <= i < built.targets@.len(),
    ensures
        ({
            let up = route.upstream;
            let t = built.targets@[i];
            &&& up.url is Some ==> built.targets@.len() == 1 && t.url@ == up.url->0@ && t.weight
                == 1
            &&& up.url is None ==> built.targets@.len() == up.targets@.len() && t.url@
                == up.targets@[i].url@ && t.weight == up.targets@[i].weight
            &&& t.health.healthy
            &&& t.breaker.verdict(now) == Allow::Permit
            &&& t.breaker.config is Some <==> route.circuit_breaker is Some
            &&& built.health_check is Some <==> up.health_check is Some
        }),
{
    if route.upstream.url is None {
        assert(built.targets@[i].is_fresh(
            route.upstream.targets@[i].url@,
            route.upstream.targets@[i].weight,
            route.circuit_breaker,
        ));
    }
}

/// Law: which balancer a route gets. A configured one wins; several targets without
/// one take turns, beginning with the first; a lone target is always the one.
pub proof fn law_balancer_choice(up: Upstream, i: int)
    requires
        up.url is None,
        0 <= i < up.targets@.len(),
        up.targets@.len() <= usize::MAX,
    ensures
        up.balance == Some(Balance::RoundRobin) ==> fresh_balancer(up).order(
            up.targets@.len() as int,
        )[i] == i,
        up.balance is None && up.targets@.len() > 1 ==> fresh_balancer(up).order(
            up.targets@.len() as int,
        )[i] == i,
        up.balance is None && up.targets@.len() == 1 ==> fresh_balancer(up) == BalancerView::Single,
        up.balance == Some(Balance::WeightedRoundRobin) ==> fresh_balancer(up) is Weighted
            && fresh_balancer(up)->weights.len() == up.targets@.len()
            && fresh_balancer(up)->weights[i] == up.targets@[i].weight
            && fresh_balancer(up)->current[i] == 0,
{
    let n = up.targets@.len() as int;
    vstd::arithmetic::div_mod::lemma_small_mod(i as nat, n as nat);
    vstd::arithmetic::div_mod::lemma_small_mod(0, n as nat);
}

/// Law: what a probe does to a pool. A pass brings its target in at once; a failure
/// that makes as many in a row as the threshold takes it out, and any other leaves it
/// where it is. No other target is touched, and nothing is without a health check.
pub proof fn law_probing(up: RouteUpstream, target: int, passed: bool, i: int)
    requires
        0 <= target < up.targets@.len(),
        0 <= i < up.targets@.len(),
    ensures
        ({
            let after = up.pool_after_probe(target, passed);
            let before = up.targets@[target].health;
            &&& i != target ==> after[i] == up.targets@[i]
            &&& up.health_check is None ==> after[i] == up.targets@[i]
            &&& after[target].breaker == up.targets@[target].breaker
            &&& up.health_check matches Some(hc) ==> {
                &&& passed ==> after[target].health.healthy
                    && after[target].health.consecutive_failures == 0
                &&& !passed && before.consecutive_failures + 1 >= hc.unhealthy_threshold
                    ==> !after[target].health.healthy
                &&& !passed && before.consecutive_failures + 1 < hc.unhealthy_threshold
                    ==> after[target].health.healthy == before.healthy
                    && after[target].health.consecutive_failures == before.consecutive_failures + 1
            }
        }),
{
}

} // verus!

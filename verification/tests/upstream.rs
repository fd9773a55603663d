//! Balancing, breakers, health, target selection and retries.

use std::collections::HashMap;

use gatewaykit::clock::{Duration, Instant};
use gatewaykit::config::{
    Backoff, Balance, CircuitBreaker, Config, Gateway, HealthCheck, Retry, Route, Target, Upstream,
};
use gatewaykit::error::GatewayError;
use gatewaykit::router::match_prefix;
use gatewaykit::upstream::balance::Balancer;
use gatewaykit::upstream::breaker::{Allow, Breaker};
use gatewaykit::upstream::health::HealthState;
use gatewaykit::upstream::retry::{delay_before, overall_budget, Action, Call, Outcome};
use gatewaykit::upstream::target::{
    probe_passes, probe_url, HealthProbe, RouteUpstream, Selection, TargetRuntime, UpstreamRegistry,
};
use gatewaykit::upstream::{
    buffer_chunk, forward_path, forward_uri, host_or_error, target_host, MAX_BODY_BYTES,
};

fn t0() -> Instant {
    Instant { nanos: 5_000_000_000_000 }
}

// ── balancing ────────────────────────────────────────────────────────────────

#[test]
fn round_robin_rotates_and_covers_evenly() {
    let mut b = Balancer::round_robin();
    // First choice of each of the first 3 requests over 3 targets: 0,1,2.
    assert_eq!(b.preference_order(3)[0], 0);
    assert_eq!(b.preference_order(3)[0], 1);
    assert_eq!(b.preference_order(3)[0], 2);
    assert_eq!(b.preference_order(3)[0], 0);
    // Each ordering is a full permutation (failover always has a next hop).
    let mut order = b.preference_order(3);
    order.sort();
    assert_eq!(order, vec![0, 1, 2]);
}

#[test]
fn weighted_splits_roughly_by_weight_and_interleaves() {
    // 3:1 over two targets: over 4 requests A wins 3, B wins 1.
    let mut b = Balancer::weighted(&[3, 1]);
    let mut counts: HashMap<usize, usize> = HashMap::new();
    let mut seq = Vec::new();
    for _ in 0..400 {
        let primary = b.preference_order(2)[0];
        *counts.entry(primary).or_default() += 1;
        seq.push(primary);
    }
    assert_eq!(counts[&0], 300, "weight-3 target wins 3/4");
    assert_eq!(counts[&1], 100, "weight-1 target wins 1/4");
    // Smoothness: the sole weight-1 pick is not bursted — within the first
    // 4-request cycle target 1 appears exactly once, interleaved.
    assert_eq!(seq[..4].iter().filter(|&&t| t == 1).count(), 1);
}

#[test]
fn single_always_zero() {
    let mut b = Balancer::Single;
    assert_eq!(b.preference_order(1), vec![0]);
}

#[test]
fn rotation_wraps_around() {
    let mut b = Balancer::RoundRobin { cursor: 2 };
    assert_eq!(b.preference_order(4), vec![2, 3, 0, 1]);
    let mut last = Balancer::RoundRobin { cursor: usize::MAX };
    assert_eq!(last.preference_order(1), vec![0]);
    assert_eq!(last.preference_order(3), vec![0, 1, 2]);
}

#[test]
fn weighted_cycle_is_exact_and_smooth() {
    // 5:1:1, the textbook sequence: A A B A C A A.
    let mut b = Balancer::weighted(&[5, 1, 1]);
    let picks: Vec<usize> = (0..7).map(|_| b.preference_order(3)[0]).collect();
    assert_eq!(picks, vec![0, 0, 1, 0, 2, 0, 0]);
    // The cycle repeats.
    let again: Vec<usize> = (0..7).map(|_| b.preference_order(3)[0]).collect();
    assert_eq!(again, picks);
}

#[test]
fn weighted_order_lists_the_rest_by_index() {
    let mut b = Balancer::weighted(&[1, 3, 2]);
    assert_eq!(b.preference_order(3), vec![1, 0, 2]);
    assert_eq!(b.preference_order(3), vec![2, 0, 1]);
}

#[test]
fn round_robin_ignores_weight() {
    let mut b = Balancer::round_robin();
    let mut counts = [0; 2];
    for _ in 0..40 {
        counts[b.preference_order(2)[0]] += 1;
    }
    assert_eq!(counts, [20, 20]);
}

// ── circuit breaker ──────────────────────────────────────────────────────────

fn cb(threshold: u32, window_secs: u64, cooldown_secs: u64) -> CircuitBreaker {
    CircuitBreaker {
        threshold,
        window: Duration::from_secs(window_secs),
        cooldown: Duration::from_secs(cooldown_secs),
    }
}

#[test]
fn inert_breaker_always_permits() {
    let mut b = Breaker::new(None);
    let now = t0();
    b.record_failure(now);
    b.record_failure(now);
    assert_eq!(b.allow(now), Allow::Permit, "no config -> never trips");
}

#[test]
fn trips_open_at_threshold_then_rejects() {
    let mut b = Breaker::new(Some(&cb(3, 60, 30)));
    let t0 = t0();
    assert_eq!(b.allow(t0), Allow::Permit);
    b.record_failure(t0);
    b.record_failure(t0);
    assert_eq!(b.allow(t0), Allow::Permit, "2 < threshold, still closed");
    b.record_failure(t0); // 3rd failure trips
    match b.allow(t0) {
        Allow::Reject { retry_after } => assert_eq!(retry_after, 30),
        other => panic!("expected Reject, got {other:?}"),
    }
}

#[test]
fn reject_retry_after_decreases_toward_cooldown() {
    let mut b = Breaker::new(Some(&cb(1, 60, 30)));
    let t0 = t0();
    b.record_failure(t0); // trips immediately (threshold 1)
    match b.allow(t0.plus(Duration::from_secs(10))) {
        Allow::Reject { retry_after } => assert_eq!(retry_after, 20),
        other => panic!("expected Reject, got {other:?}"),
    }
}

#[test]
fn half_open_probe_success_closes() {
    let mut b = Breaker::new(Some(&cb(1, 60, 30)));
    let t0 = t0();
    b.record_failure(t0); // Open
    let t1 = t0.plus(Duration::from_secs(31)); // past cooldown
    assert_eq!(b.allow(t1), Allow::PermitProbe, "cooldown elapsed -> probe");
    assert_eq!(
        b.allow(t1),
        Allow::Reject { retry_after: 1 },
        "second concurrent request rejected while probe is out"
    );
    b.record_success(t1); // probe succeeded
    assert!(b.is_closed());
    assert_eq!(b.allow(t1), Allow::Permit);
}

#[test]
fn half_open_probe_failure_reopens_with_fresh_cooldown() {
    let mut b = Breaker::new(Some(&cb(1, 60, 30)));
    let t0 = t0();
    b.record_failure(t0); // Open
    let t1 = t0.plus(Duration::from_secs(31));
    assert_eq!(b.allow(t1), Allow::PermitProbe);
    b.record_failure(t1); // probe failed -> reopen at t1
    match b.allow(t1.plus(Duration::from_secs(5))) {
        Allow::Reject { retry_after } => assert_eq!(retry_after, 25, "cooldown restarted"),
        other => panic!("expected Reject, got {other:?}"),
    }
}

#[test]
fn interleaved_successes_do_not_reset_the_window_count() {
    // The degrading-upstream case: 503,200,503,200,503 within the window must
    // still trip a threshold-3 breaker.
    let mut b = Breaker::new(Some(&cb(3, 60, 30)));
    let t0 = t0();
    b.record_failure(t0); // 1
    b.record_success(t0); // interleaved 2xx — must NOT reset the count
    b.record_failure(t0); // 2
    b.record_success(t0);
    assert_eq!(b.allow(t0), Allow::Permit, "2 < threshold, still closed");
    b.record_failure(t0); // 3 → trips despite the interleaved successes
    assert!(
        matches!(b.allow(t0), Allow::Reject { .. }),
        "3 in-window failures trip even with successes between them"
    );
}

#[test]
fn rolling_window_resets_failure_count() {
    let mut b = Breaker::new(Some(&cb(3, 10, 30)));
    let t0 = t0();
    b.record_failure(t0);
    b.record_failure(t0); // 2 failures in the window
    // Window elapses before the 3rd failure: counter restarts, no trip.
    let t1 = t0.plus(Duration::from_secs(11));
    b.record_failure(t1);
    assert_eq!(b.allow(t1), Allow::Permit, "count reset across the window");
}

#[test]
fn window_opens_with_the_first_failure() {
    // The window runs from the first counted failure, not from when the breaker
    // was made: failures 58 seconds apart fall within one window of 60.
    let mut b = Breaker::new(Some(&cb(2, 60, 30)));
    b.record_failure(t0());
    b.record_failure(t0().plus(Duration::from_secs(58)));
    assert!(!b.is_closed());
}

#[test]
fn zero_threshold_counts_as_one() {
    let mut b = Breaker::new(Some(&cb(0, 60, 30)));
    assert_eq!(b.allow(t0()), Allow::Permit);
    b.record_failure(t0());
    assert_eq!(b.allow(t0()), Allow::Reject { retry_after: 30 });
}

#[test]
fn wait_is_rounded_up_and_at_least_one() {
    let mut b = Breaker::new(Some(&cb(1, 60, 30)));
    b.record_failure(t0());
    let almost = t0().plus(Duration::from_millis(29_999));
    assert_eq!(b.allow(almost), Allow::Reject { retry_after: 1 });
    let half = t0().plus(Duration::from_millis(500));
    assert_eq!(b.allow(half), Allow::Reject { retry_after: 30 });
    // A straggler's failure does not restart the cooldown.
    b.record_failure(almost);
    let over = t0().plus(Duration::from_secs(30));
    assert_eq!(b.allow(over), Allow::PermitProbe);
}

// ── health ───────────────────────────────────────────────────────────────────

#[test]
fn starts_healthy() {
    assert!(HealthState::new().is_healthy());
    assert!(HealthState::default().is_healthy());
}

#[test]
fn marks_unhealthy_only_after_threshold_consecutive_failures() {
    let mut h = HealthState::new();
    h.record_probe_failure(3);
    assert!(h.is_healthy(), "1 failure < threshold");
    h.record_probe_failure(3);
    assert!(h.is_healthy(), "2 failures < threshold");
    h.record_probe_failure(3);
    assert!(!h.is_healthy(), "3rd consecutive failure ejects the target");
}

#[test]
fn a_success_resets_the_streak() {
    let mut h = HealthState::new();
    h.record_probe_failure(3);
    h.record_probe_failure(3);
    h.record_probe_success(); // streak back to 0
    assert!(h.is_healthy());
    h.record_probe_failure(3);
    h.record_probe_failure(3);
    assert!(h.is_healthy(), "streak restarted after the success, 2 < 3");
}

#[test]
fn recovers_on_first_success_after_ejection() {
    let mut h = HealthState::new();
    h.record_probe_failure(2);
    h.record_probe_failure(2);
    assert!(!h.is_healthy());
    h.record_probe_success();
    assert!(h.is_healthy(), "one good probe brings it back");
}

#[test]
fn live_traffic_failures_eject_and_only_a_probe_recovers() {
    // Passive ejection with no breaker involved: `threshold` consecutive live
    // failures take the target out of rotation...
    let mut h = HealthState::new();
    h.record_live_failure(3);
    h.record_live_failure(3);
    assert!(h.is_healthy(), "2 live failures < threshold");
    h.record_live_failure(3);
    assert!(!h.is_healthy(), "3rd consecutive live failure ejects");
    // ...and a live success alone does NOT readmit (ejected targets get no
    // live traffic; recovery is the prober's job).
    h.record_live_success();
    assert!(!h.is_healthy(), "live success does not readmit an ejected target");
    h.record_probe_success();
    assert!(h.is_healthy(), "an active probe is the authoritative recovery");
}

#[test]
fn a_live_success_clears_the_passive_streak() {
    let mut h = HealthState::new();
    h.record_live_failure(3);
    h.record_live_failure(3);
    h.record_live_success(); // streak back to 0
    h.record_live_failure(3);
    h.record_live_failure(3);
    assert!(h.is_healthy(), "streak restarted after the success, 2 < 3");
}

#[test]
fn probe_and_live_streaks_do_not_mix() {
    let mut h = HealthState::new();
    h.record_probe_failure(2);
    h.record_live_failure(2);
    assert!(h.is_healthy());
    let mut zero = HealthState::new();
    zero.record_probe_failure(0);
    assert!(!zero.is_healthy(), "a threshold of zero counts as one");
}

// ── target selection ─────────────────────────────────────────────────────────

fn target(cb: Option<&CircuitBreaker>) -> TargetRuntime {
    TargetRuntime::new("http://t".to_string(), 1, cb)
}

fn route(targets: Vec<TargetRuntime>) -> RouteUpstream {
    let n = targets.len();
    RouteUpstream {
        targets,
        balancer: if n > 1 {
            Balancer::round_robin()
        } else {
            Balancer::Single
        },
        health_check: None,
    }
}

#[test]
fn selects_the_only_healthy_target() {
    let mut ru = route(vec![target(None)]);
    let order = ru.preference_order();
    let now = t0();
    assert!(matches!(
        ru.select(&order, 0, now),
        Selection::Target { .. }
    ));
}

#[test]
fn all_unhealthy_maps_to_targets_unhealthy_not_circuit_open() {
    let mut t = target(None);
    t.health.record_probe_failure(1); // eject via health
    let mut ru = route(vec![t]);
    let order = ru.preference_order();
    match ru.select(&order, 0, t0()) {
        Selection::Unavailable { open, .. } => {
            assert!(!open, "health ejection -> AllTargetsUnhealthy, not CircuitOpen")
        }
        _ => panic!("expected Unavailable"),
    }
}

#[test]
fn open_breaker_maps_to_circuit_open_with_retry_after() {
    let cb = CircuitBreaker {
        threshold: 1,
        window: Duration::from_secs(60),
        cooldown: Duration::from_secs(30),
    };
    let mut t = target(Some(&cb));
    let now = t0();
    t.breaker.record_failure(now); // trips Open
    let mut ru = route(vec![t]);
    let order = ru.preference_order();
    match ru.select(&order, 0, now) {
        Selection::Unavailable { open, retry_after } => {
            assert!(open, "breaker Open -> CircuitOpen");
            assert_eq!(retry_after, 30);
        }
        _ => panic!("expected Unavailable"),
    }
}

#[test]
fn failover_skips_the_open_target_for_the_healthy_one() {
    let cb = CircuitBreaker {
        threshold: 1,
        window: Duration::from_secs(60),
        cooldown: Duration::from_secs(30),
    };
    let mut bad = target(Some(&cb));
    let good = target(None);
    let now = t0();
    bad.breaker.record_failure(now); // bad is Open
    // Order [bad, good]: selection must skip bad and land on good.
    let mut ru = RouteUpstream {
        targets: vec![bad, good],
        balancer: Balancer::round_robin(),
        health_check: None,
    };
    match ru.select(&[0, 1], 0, now) {
        Selection::Target { target, .. } => {
            assert_eq!(target, 1, "picked the healthy target")
        }
        _ => panic!("expected a Target"),
    }
}

#[test]
fn selection_starts_where_it_is_told_and_wraps() {
    let mut ru = route(vec![target(None), target(None), target(None)]);
    assert_eq!(
        ru.select(&[2, 0, 1], 1, t0()),
        Selection::Target { target: 0, order_pos: 1 }
    );
    assert_eq!(
        ru.select(&[2, 0, 1], 3, t0()),
        Selection::Target { target: 2, order_pos: 0 }
    );
}

#[test]
fn the_soonest_cooldown_is_reported() {
    let slow = cb(1, 60, 30);
    let fast = cb(1, 60, 10);
    let mut a = target(Some(&slow));
    let mut b = target(Some(&fast));
    a.breaker.record_failure(t0());
    b.breaker.record_failure(t0());
    let mut ru = route(vec![a, b]);
    assert_eq!(
        ru.select(&[0, 1], 0, t0()),
        Selection::Unavailable { open: true, retry_after: 10 }
    );
}

#[test]
fn half_open_trial_goes_through_once() {
    let c = cb(1, 60, 30);
    let mut t = target(Some(&c));
    t.breaker.record_failure(t0());
    let mut ru = route(vec![t]);
    let later = t0().plus(Duration::from_secs(31));
    assert_eq!(
        ru.select(&[0], 0, later),
        Selection::Target { target: 0, order_pos: 0 }
    );
    assert_eq!(
        ru.select(&[0], 0, later),
        Selection::Unavailable { open: true, retry_after: 1 }
    );
}

// ── building pools ───────────────────────────────────────────────────────────

fn upstream(url: Option<&str>, targets: &[(&str, u32)], balance: Option<Balance>) -> Upstream {
    Upstream {
        url: url.map(|u| u.to_string()),
        targets: targets
            .iter()
            .map(|(u, w)| Target { url: u.to_string(), weight: *w })
            .collect(),
        balance,
        timeout: None,
        health_check: None,
    }
}

fn config(upstreams: Vec<Upstream>) -> Config {
    Config {
        gateway: Gateway { port: 8080, global_timeout: None, global_rate_limit: None },
        routes: upstreams
            .into_iter()
            .enumerate()
            .map(|(i, upstream)| Route {
                path: format!("/r{i}"),
                methods: vec!["GET".to_string()],
                strip_prefix: false,
                upstream,
                timeout: None,
                retry: None,
                rate_limit: None,
                auth: None,
                circuit_breaker: None,
                request_transform: None,
                response_transform: None,
            })
            .collect(),
    }
}

#[test]
fn pools_follow_the_configuration() {
    let mut cfg = config(vec![
        upstream(Some("http://a"), &[], None),
        upstream(None, &[("http://b", 1), ("http://c", 2)], None),
        upstream(
            None,
            &[("http://d", 3), ("http://e", 1)],
            Some(Balance::WeightedRoundRobin),
        ),
    ]);
    cfg.routes[0].circuit_breaker = Some(cb(2, 60, 30));
    cfg.routes[1].upstream.health_check = Some(HealthCheck {
        path: "/healthz".to_string(),
        interval: Duration::from_secs(30),
        unhealthy_threshold: 3,
    });
    let reg = UpstreamRegistry::build(&cfg);
    assert_eq!(reg.routes.len(), 3);
    assert_eq!(reg.route(0).targets.len(), 1);
    assert_eq!(reg.route(0).targets[0].url, "http://a");
    assert_eq!(reg.route(0).targets[0].breaker.config.unwrap().threshold, 2);
    assert!(matches!(reg.route(0).balancer, Balancer::Single));
    assert!(reg.route(0).health_check.is_none());
    assert_eq!(reg.route(1).targets.len(), 2);
    assert_eq!(reg.route(1).targets[1].url, "http://c");
    assert_eq!(reg.route(1).targets[1].weight, 2);
    assert!(reg.route(1).targets[0].breaker.config.is_none());
    assert!(matches!(reg.route(1).balancer, Balancer::RoundRobin { .. }));
    let probe = reg.route(1).health_check.as_ref().unwrap();
    assert_eq!(probe.path, "/healthz");
    assert_eq!(probe.unhealthy_threshold, 3);
    match &reg.route(2).balancer {
        Balancer::Weighted { weights, .. } => assert_eq!(weights, &vec![3, 1]),
        _ => panic!("expected a weighted balancer"),
    }
}

#[test]
fn probes_pass_on_success_statuses_only() {
    assert!(probe_passes(Some(200)));
    assert!(probe_passes(Some(299)));
    assert!(!probe_passes(Some(300)));
    assert!(!probe_passes(Some(199)));
    assert!(!probe_passes(Some(503)));
    assert!(!probe_passes(None));
    assert_eq!(probe_url("http://h:1//", "/healthz"), "http://h:1/healthz");
}

#[test]
fn probes_eject_and_readmit() {
    let mut ru = route(vec![target(None), target(None)]);
    ru.record_probe(1, false);
    assert!(ru.targets[1].health.is_healthy(), "no health check, nothing recorded");
    ru.health_check = Some(HealthProbe {
        path: "/healthz".to_string(),
        interval: Duration::from_secs(1),
        unhealthy_threshold: 2,
    });
    ru.record_probe(1, false);
    ru.record_probe(1, false);
    assert!(!ru.targets[1].health.is_healthy());
    assert!(ru.targets[0].health.is_healthy());
    ru.record_probe(1, true);
    assert!(ru.targets[1].health.is_healthy());
}

// ── retries ──────────────────────────────────────────────────────────────────

fn retry(attempts: u32, backoff: Backoff, millis: u64, on: &[u16]) -> Retry {
    Retry {
        attempts,
        backoff,
        initial_delay: Duration::from_millis(millis),
        on: on.to_vec(),
    }
}

fn send_of(a: &Action) -> usize {
    match a {
        Action::Send { target } => *target,
        _ => panic!("expected Send"),
    }
}

#[test]
fn retry_recovers_after_transient_failure() {
    let mut ru = route(vec![target(None)]);
    let r = retry(2, Backoff::Fixed, 50, &[503]);
    let (call, first) = Call::begin(&mut ru, Some(&r), None, t0());
    let mut call = call.unwrap();
    assert_eq!(send_of(&first), 0);
    match call.on_outcome(&mut ru, Some(&r), Outcome::Response { status: 503 }, t0()) {
        Action::Pause { delay } => assert_eq!(delay, Duration::from_millis(50)),
        _ => panic!("expected Pause"),
    }
    assert_eq!(send_of(&call.resume(&mut ru, t0())), 0);
    assert_eq!(call.made, 2);
    assert!(matches!(
        call.on_outcome(&mut ru, Some(&r), Outcome::Response { status: 200 }, t0()),
        Action::Relay
    ));
}

#[test]
fn retry_exhaustion_surfaces_last_upstream_error() {
    let mut ru = route(vec![target(None)]);
    let r = retry(2, Backoff::Fixed, 20, &[503]);
    let mut call = Call::begin(&mut ru, Some(&r), None, t0()).0.unwrap();
    call.on_outcome(&mut ru, Some(&r), Outcome::Response { status: 503 }, t0());
    call.resume(&mut ru, t0());
    assert!(matches!(
        call.on_outcome(&mut ru, Some(&r), Outcome::Response { status: 503 }, t0()),
        Action::Relay
    ));
}

#[test]
fn without_retry_there_is_one_attempt() {
    let mut ru = route(vec![target(None)]);
    let mut call = Call::begin(&mut ru, None, None, t0()).0.unwrap();
    assert!(matches!(
        call.on_outcome(&mut ru, None, Outcome::Timeout, t0()),
        Action::Fail(GatewayError::GatewayTimeout)
    ));
    let mut call = Call::begin(&mut ru, None, None, t0()).0.unwrap();
    match call.on_outcome(&mut ru, None, Outcome::Failed("refused".to_string()), t0()) {
        Action::Fail(GatewayError::BadGateway(why)) => assert_eq!(why, "refused"),
        _ => panic!("expected BadGateway"),
    }
}

#[test]
fn transport_errors_and_timeouts_are_tried_again_but_other_statuses_are_not() {
    let r = retry(3, Backoff::Fixed, 10, &[503]);
    let mut ru = route(vec![target(None)]);
    let mut call = Call::begin(&mut ru, Some(&r), None, t0()).0.unwrap();
    assert!(matches!(
        call.on_outcome(&mut ru, Some(&r), Outcome::Timeout, t0()),
        Action::Pause { .. }
    ));
    call.resume(&mut ru, t0());
    assert!(matches!(
        call.on_outcome(&mut ru, Some(&r), Outcome::Failed("x".to_string()), t0()),
        Action::Pause { .. }
    ));
    call.resume(&mut ru, t0());
    assert!(matches!(
        call.on_outcome(&mut ru, Some(&r), Outcome::Timeout, t0()),
        Action::Fail(GatewayError::GatewayTimeout)
    ));
    let mut call = Call::begin(&mut ru, Some(&r), None, t0()).0.unwrap();
    assert!(matches!(
        call.on_outcome(&mut ru, Some(&r), Outcome::Response { status: 500 }, t0()),
        Action::Relay
    ));
}

#[test]
fn a_retry_fails_over_to_the_next_target() {
    let mut ru = route(vec![target(None), target(None)]);
    let r = retry(2, Backoff::Fixed, 10, &[503]);
    let (call, first) = Call::begin(&mut ru, Some(&r), None, t0());
    let mut call = call.unwrap();
    assert_eq!(send_of(&first), 0);
    call.on_outcome(&mut ru, Some(&r), Outcome::Response { status: 503 }, t0());
    assert_eq!(send_of(&call.resume(&mut ru, t0())), 1);
}

#[test]
fn a_retry_without_a_target_surfaces_the_last_outcome() {
    // The only target's breaker trips on the first failure.
    let c = cb(1, 60, 30);
    let mut ru = route(vec![target(Some(&c))]);
    let r = retry(3, Backoff::Fixed, 10, &[503]);
    let mut call = Call::begin(&mut ru, Some(&r), None, t0()).0.unwrap();
    assert!(matches!(
        call.on_outcome(&mut ru, Some(&r), Outcome::Response { status: 503 }, t0()),
        Action::Pause { .. }
    ));
    assert!(matches!(call.resume(&mut ru, t0()), Action::Relay));
    // A new call finds the circuit open.
    match Call::begin(&mut ru, Some(&r), None, t0()).1 {
        Action::Fail(GatewayError::CircuitOpen { retry_after }) => assert_eq!(retry_after, 30),
        _ => panic!("expected CircuitOpen"),
    }
}

#[test]
fn backoff_grows_as_configured() {
    let fixed = retry(4, Backoff::Fixed, 100, &[]);
    assert_eq!(delay_before(&fixed, 3), Duration::from_millis(100));
    let exp = retry(4, Backoff::Exponential, 100, &[]);
    assert_eq!(delay_before(&exp, 1), Duration::from_millis(100));
    assert_eq!(delay_before(&exp, 2), Duration::from_millis(200));
    assert_eq!(delay_before(&exp, 3), Duration::from_millis(400));
    assert_eq!(delay_before(&exp, u32::MAX).nanos, u128::MAX);
    let zero = retry(4, Backoff::Exponential, 0, &[]);
    assert_eq!(delay_before(&zero, u32::MAX).nanos, 0);
}

#[test]
fn the_budget_spans_all_attempts_and_delays() {
    let exp = retry(3, Backoff::Exponential, 100, &[]);
    // 3 attempts of 1 s, delays of 100 ms and 200 ms.
    assert_eq!(
        overall_budget(Some(&exp), Some(Duration::from_secs(1))),
        Some(Duration::from_millis(3300))
    );
    let fixed = retry(3, Backoff::Fixed, 100, &[]);
    assert_eq!(
        overall_budget(Some(&fixed), Some(Duration::from_secs(1))),
        Some(Duration::from_millis(3200))
    );
    assert_eq!(overall_budget(Some(&exp), None), None);
    assert_eq!(overall_budget(None, Some(Duration::from_secs(1))), None);
}

#[test]
fn no_attempt_is_started_past_the_budget() {
    let mut ru = route(vec![target(None)]);
    let r = retry(3, Backoff::Fixed, 100, &[503]);
    let timeout = Some(Duration::from_secs(1));
    let mut call = Call::begin(&mut ru, Some(&r), timeout, t0()).0.unwrap();
    let late = t0().plus(Duration::from_millis(3101));
    assert!(matches!(
        call.on_outcome(&mut ru, Some(&r), Outcome::Response { status: 503 }, late),
        Action::Relay
    ));
    let mut call = Call::begin(&mut ru, Some(&r), timeout, t0()).0.unwrap();
    let in_time = t0().plus(Duration::from_millis(3100));
    assert!(matches!(
        call.on_outcome(&mut ru, Some(&r), Outcome::Response { status: 503 }, in_time),
        Action::Pause { .. }
    ));
}

#[test]
fn zero_attempts_still_try_once() {
    let mut ru = route(vec![target(None)]);
    let r = retry(0, Backoff::Fixed, 10, &[503]);
    let mut call = Call::begin(&mut ru, Some(&r), None, t0()).0.unwrap();
    assert!(matches!(
        call.on_outcome(&mut ru, Some(&r), Outcome::Response { status: 503 }, t0()),
        Action::Relay
    ));
}

#[test]
fn circuit_breaker_trips_then_recovers() {
    // threshold 3, cooldown 3s. Three upstream 503s trip the breaker; the next
    // request is refused; after the cooldown a trial closes it again.
    let c = cb(3, 60, 3);
    let mut ru = route(vec![target(Some(&c))]);
    for _ in 0..3 {
        let mut call = Call::begin(&mut ru, None, None, t0()).0.unwrap();
        assert!(matches!(
            call.on_outcome(&mut ru, None, Outcome::Response { status: 503 }, t0()),
            Action::Relay
        ));
    }
    let wait = |ru: &mut RouteUpstream, at: Instant| match Call::begin(ru, None, None, at).1 {
        Action::Fail(GatewayError::CircuitOpen { retry_after }) => retry_after,
        _ => panic!("expected CircuitOpen"),
    };
    let first = wait(&mut ru, t0());
    let second = wait(&mut ru, t0().plus(Duration::from_millis(1200)));
    assert!(second < first, "retry_after should decrease");
    let healed = t0().plus(Duration::from_millis(3400));
    let mut call = Call::begin(&mut ru, None, None, healed).0.unwrap();
    call.on_outcome(&mut ru, None, Outcome::Response { status: 200 }, healed);
    assert!(ru.targets[0].breaker.is_closed(), "half-open probe closed the breaker");
}

fn serve_twelve(ru: &mut RouteUpstream) -> (usize, usize) {
    // Target 0 answers 200, target 1 answers 503.
    let (mut good, mut bad) = (0, 0);
    for _ in 0..12 {
        let (call, action) = Call::begin(ru, None, None, t0());
        let mut call = call.unwrap();
        let status = if send_of(&action) == 0 {
            good += 1;
            200
        } else {
            bad += 1;
            503
        };
        call.on_outcome(ru, None, Outcome::Response { status }, t0());
    }
    (good, bad)
}

#[test]
fn passive_ejection_removes_a_failing_target_via_its_breaker() {
    let c = cb(2, 60, 30);
    let mut ru = route(vec![target(Some(&c)), target(Some(&c))]);
    assert_eq!(serve_twelve(&mut ru), (10, 2));
}

#[test]
fn passive_ejection_works_with_health_check_but_no_breaker() {
    let mut ru = route(vec![target(None), target(None)]);
    ru.health_check = Some(HealthProbe {
        path: "/healthz".to_string(),
        interval: Duration::from_secs(60),
        unhealthy_threshold: 2,
    });
    assert_eq!(serve_twelve(&mut ru), (10, 2));
}

#[test]
fn without_breaker_and_health_check_nothing_is_ejected() {
    let mut ru = route(vec![target(None), target(None)]);
    assert_eq!(serve_twelve(&mut ru), (6, 6));
}

#[test]
fn all_targets_unhealthy_returns_503() {
    let mut a = target(None);
    let mut b = target(None);
    a.health.record_probe_failure(1);
    b.health.record_probe_failure(1);
    let mut ru = route(vec![a, b]);
    match Call::begin(&mut ru, None, None, t0()).1 {
        Action::Fail(e) => {
            assert_eq!(e.status(), 503);
            assert!(e.into_response().body.contains("service_unavailable"));
        }
        _ => panic!("expected Fail"),
    }
}

// ── forwarding ───────────────────────────────────────────────────────────────

#[test]
fn strip_prefix_true_rewrites_path_and_preserves_query() {
    assert_eq!(forward_path(true, "/123", Some("/api/products/123"), None), "/123");
    assert_eq!(
        forward_path(true, "/123", Some("/api/products/123?q=1"), Some("q=1")),
        "/123?q=1"
    );
}

#[test]
fn strip_prefix_whole_path_yields_root() {
    let tail = match_prefix("/api/products", "/api/products").unwrap();
    assert_eq!(forward_path(true, &tail, Some("/api/products"), None), "/");
    assert_eq!(forward_path(true, &tail, Some("/api/products?q=1"), Some("q=1")), "/?q=1");
}

#[test]
fn strip_prefix_false_forwards_original_path() {
    assert_eq!(
        forward_path(false, "/v1/data", Some("/api/legacy/v1/data?a=b"), Some("a=b")),
        "/api/legacy/v1/data?a=b"
    );
    assert_eq!(forward_path(false, "/123", None, None), "/");
}

#[test]
fn target_uri_and_host() {
    let uri = forward_uri("http://localhost:3001/", "/api/users?x=1");
    assert_eq!(uri, "http://localhost:3001/api/users?x=1");
    assert_eq!(target_host(&uri).ok().unwrap(), "localhost:3001");
    match target_host("/only/a/path") {
        Err(GatewayError::BadGateway(why)) => {
            assert_eq!(why, "upstream URI '/only/a/path' has no host")
        }
        _ => panic!("expected BadGateway"),
    }
    match target_host("http://exa mple") {
        Err(GatewayError::BadGateway(why)) => {
            assert!(why.starts_with("invalid upstream URI 'http://exa mple': "))
        }
        _ => panic!("expected BadGateway"),
    }
    assert_eq!(host_or_error("u", Ok(Some("h:1"))).ok().unwrap(), "h:1");
}

#[test]
fn bodies_are_buffered_up_to_the_cap() {
    let mut buf = Vec::new();
    assert!(buffer_chunk(&mut buf, b"abc").is_ok());
    assert!(buffer_chunk(&mut buf, b"de").is_ok());
    assert_eq!(buf, b"abcde");
    let rest = vec![0u8; MAX_BODY_BYTES - 5];
    assert!(buffer_chunk(&mut buf, &rest).is_ok());
    assert_eq!(buf.len(), 2 * 1024 * 1024);
    match buffer_chunk(&mut buf, b"x") {
        Err(e) => assert_eq!(e.status(), 413),
        Ok(()) => panic!("expected PayloadTooLarge"),
    }
    assert_eq!(buf.len(), MAX_BODY_BYTES);
}

#[test]
fn a_request_is_addressed_to_every_target_or_refused() {
    let target = |url: &str| TargetRuntime::new(url.to_string(), 1, None);
    let ru = route(vec![target("http://a:1/"), target("http://b:2")]);
    let list = ru.addresses("/x?q=1").ok().unwrap();
    assert_eq!(list.len(), 2);
    assert_eq!(list[0].uri, "http://a:1/x?q=1");
    assert_eq!(list[0].host, "a:1");
    assert_eq!(list[1].host, "b:2");
    let long = "/".to_string() + &"x".repeat(70_000);
    match ru.addresses(&long) {
        Err(e) => assert_eq!(e.status(), 502),
        Ok(_) => panic!("expected BadGateway"),
    }
}

#[test]
fn the_greatest_wait_is_reported_as_it_is() {
    let cb = CircuitBreaker {
        threshold: 1,
        window: Duration::from_secs(60),
        cooldown: Duration { nanos: u128::MAX },
    };
    let mut t = TargetRuntime::new("http://t".to_string(), 1, Some(&cb));
    t.breaker.record_failure(t0());
    let mut ru = route(vec![t]);
    match ru.select(&[0], 0, t0()) {
        Selection::Unavailable { open, retry_after } => {
            assert!(open);
            assert_eq!(retry_after, u64::MAX);
        }
        _ => panic!("expected Unavailable"),
    }
}

#[test]
fn live_signals_leave_the_probe_streak_alone() {
    let mut h = HealthState::new();
    h.record_probe_failure(2);
    h.record_live_success();
    h.record_live_failure(2);
    assert!(h.is_healthy());
    h.record_probe_failure(2);
    assert!(!h.is_healthy());
}

#[test]
fn weighted_split_holds_from_any_request_on() {
    let mut b = Balancer::weighted(&[3, 1]);
    for _ in 0..2 {
        b.preference_order(2);
    }
    let firsts = (0..4).filter(|_| b.preference_order(2)[0] == 0).count();
    assert_eq!(firsts, 3);
}

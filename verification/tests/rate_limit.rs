//! Rate limiting.

use gatewaykit::clock::{Duration, Instant};
use gatewaykit::config::{Config, Gateway, Per, RateLimit, Route, Strategy, Upstream};
use gatewaykit::rate_limit::{
    effective_rate_limit, shard_index, Entry, IpAddr, Policy, RateLimiterRegistry, RouteLimiter,
    SHARDS,
};
use gatewaykit::wide::product_exceeds;

fn t0() -> Instant {
    Instant { nanos: 7_000_000_000_000 }
}

fn ip(last: u32) -> IpAddr {
    IpAddr::V4(0x0a00_0000 + last)
}

fn rl(requests: u64, window_secs: u64, strategy: Strategy, per: Per) -> RateLimit {
    RateLimit {
        requests,
        window: Duration::from_secs(window_secs),
        strategy,
        per,
    }
}

#[test]
fn fixed_window_boundary_reset() {
    let t0 = t0();
    let mut limiter = RouteLimiter::new(&rl(2, 10, Strategy::FixedWindow, Per::Ip), t0);
    let a = ip(1);
    assert!(limiter.check(t0, a).is_ok());
    assert!(limiter.check(t0, a).is_ok());
    assert!(limiter.check(t0, a).is_err(), "3rd in window is over limit");
    // Once the window fully elapses the counter resets and admits again.
    let t1 = t0.plus(Duration::from_secs(10));
    assert!(limiter.check(t1, a).is_ok());
    assert!(limiter.check(t1, a).is_ok());
    assert!(limiter.check(t1, a).is_err());
}

#[test]
fn per_ip_buckets_are_independent() {
    let t0 = t0();
    let mut limiter = RouteLimiter::new(&rl(1, 10, Strategy::FixedWindow, Per::Ip), t0);
    assert!(limiter.check(t0, ip(1)).is_ok());
    assert!(limiter.check(t0, ip(1)).is_err(), "same ip is limited");
    // A different IP has its own bucket and is unaffected.
    assert!(limiter.check(t0, ip(2)).is_ok());
}

#[test]
fn per_global_shares_one_bucket_across_ips() {
    let t0 = t0();
    let mut limiter = RouteLimiter::new(&rl(1, 10, Strategy::FixedWindow, Per::Global), t0);
    assert!(limiter.check(t0, ip(1)).is_ok());
    // Different IP, but per: global -> one shared bucket -> rejected.
    assert!(limiter.check(t0, ip(2)).is_err());
    assert_eq!(limiter.entry_count(), 1);
}

#[test]
fn sliding_window_smooths_the_boundary() {
    // 4 req / 10s. Fill window 1; just past the boundary the previous
    // window's weight still blocks (not a hard reset); deep into window 2
    // its weight has decayed enough to admit.
    let t0 = t0();
    let mut limiter = RouteLimiter::new(&rl(4, 10, Strategy::SlidingWindow, Per::Ip), t0);
    let a = ip(1);
    for _ in 0..4 {
        assert!(limiter.check(t0, a).is_ok());
    }
    assert!(limiter.check(t0, a).is_err(), "5th exceeds the limit");
    // t0 + 10.1s: prev=4, fraction≈0.01 -> weighted≈3.96, +1 > 4 -> reject.
    let t1 = t0.plus(Duration::from_millis(10_100));
    assert!(
        limiter.check(t1, a).is_err(),
        "boundary burst still smoothed"
    );
    // t0 + 19s (9s into sub-window 2): weighted = 4*0.1 = 0.4 -> admit.
    let t2 = t0.plus(Duration::from_secs(19));
    assert!(limiter.check(t2, a).is_ok(), "capacity returns as weight decays");
}

#[test]
fn eviction_reclaims_only_idle_entries() {
    let t0 = t0();
    let mut limiter = RouteLimiter::new(&rl(5, 10, Strategy::FixedWindow, Per::Ip), t0);
    let _ = limiter.check(t0, ip(1));
    let _ = limiter.check(t0, ip(2));
    assert_eq!(limiter.entry_count(), 2);
    // A sweep before the window elapses keeps live entries.
    limiter.sweep(t0.plus(Duration::from_secs(1)));
    assert_eq!(limiter.entry_count(), 2, "live entries retained");
    // After the window fully elapses, idle entries are reclaimed.
    limiter.sweep(t0.plus(Duration::from_secs(11)));
    assert_eq!(limiter.entry_count(), 0, "idle entries reclaimed");
}

fn route(path: &str, url: &str, rate_limit: Option<RateLimit>) -> Route {
    Route {
        path: path.to_string(),
        methods: vec!["GET".to_string()],
        strip_prefix: false,
        upstream: Upstream {
            url: Some(url.to_string()),
            targets: vec![],
            balance: None,
            timeout: None,
            health_check: None,
        },
        timeout: None,
        retry: None,
        rate_limit,
        auth: None,
        circuit_breaker: None,
        request_transform: None,
        response_transform: None,
    }
}

fn config(global_rate_limit: Option<RateLimit>, routes: Vec<Route>) -> Config {
    Config {
        gateway: Gateway { port: 8080, global_timeout: None, global_rate_limit },
        routes,
    }
}

#[test]
fn registry_resolves_route_override_and_global_default() {
    // With a global present: route[0] overrides with a stricter limit;
    // route[1] inherits the global default (instantiated per route).
    let cfg = config(
        Some(rl(100, 60, Strategy::FixedWindow, Per::Ip)),
        vec![
            route("/strict", "http://x", Some(rl(1, 60, Strategy::FixedWindow, Per::Ip))),
            route("/inherits", "http://y", None),
        ],
    );
    let mut reg = RateLimiterRegistry::build(&cfg, t0());
    let peer = ip(1);

    // route[0]: stricter override (1), not the global 100.
    assert!(reg.check(0, peer, t0()).is_ok());
    assert!(reg.check(0, peer, t0()).is_err(), "override limit of 1 applies");

    // route[1]: inherits global 100 -> the 2nd request still passes, and it
    // *does* hold a bucket (the global default is a real per-route limiter).
    assert!(reg.check(1, peer, t0()).is_ok());
    assert!(reg.check(1, peer, t0()).is_ok(), "global default of 100 applies");
    assert_eq!(reg.entry_count(1), 1, "inherited global is a live limiter");
    assert!(reg.any_limited());
    assert_eq!(effective_rate_limit(&cfg.routes[0], &cfg).unwrap().requests, 1);
    assert_eq!(effective_rate_limit(&cfg.routes[1], &cfg).unwrap().requests, 100);
}

#[test]
fn registry_leaves_route_unlimited_when_no_global_and_no_override() {
    // The genuine unlimited path: no global_rate_limit *and* no route-level
    // rate_limit -> effective_rate_limit is None -> always admit, no buckets.
    let cfg = config(None, vec![route("/open", "http://z", None)]);
    let mut reg = RateLimiterRegistry::build(&cfg, t0());
    let peer = ip(1);

    for _ in 0..50 {
        assert!(reg.check(0, peer, t0()).is_ok(), "unlimited route always admits");
    }
    assert_eq!(reg.entry_count(0), 0, "no limiter -> no buckets");
    assert!(!reg.any_limited());
    assert!(reg.check(7, peer, t0()).is_ok(), "no such route -> admitted");
}

#[test]
fn fifty_concurrent_requests_admit_exactly_ten() {
    for strategy in [Strategy::FixedWindow, Strategy::SlidingWindow] {
        let mut limiter = RouteLimiter::new(&rl(10, 60, strategy, Per::Ip), t0());
        let admitted = (0..50)
            .filter(|i| limiter.check(t0().plus(Duration::from_millis(*i)), ip(1)).is_ok())
            .count();
        assert_eq!(admitted, 10);
    }
}

#[test]
fn the_wait_runs_to_the_end_of_the_window() {
    let t0 = t0();
    let mut limiter = RouteLimiter::new(&rl(1, 10, Strategy::FixedWindow, Per::Ip), t0);
    assert_eq!(limiter.check(t0, ip(1)), Ok(()));
    assert_eq!(limiter.check(t0, ip(1)), Err(10));
    assert_eq!(limiter.check(t0.plus(Duration::from_millis(2_500)), ip(1)), Err(8));
    assert_eq!(limiter.check(t0.plus(Duration::from_millis(9_999)), ip(1)), Err(1));
    assert_eq!(limiter.check(t0.plus(Duration::from_secs(10)), ip(1)), Ok(()));
}

#[test]
fn the_sliding_estimate_is_exact_at_its_edge() {
    // 4 per 10 s, previous window full. With a quarter of the window gone the
    // previous one counts 3, so exactly one fits; a nanosecond sooner none does.
    let policy = Policy {
        requests: 4,
        window: Duration::from_secs(10),
        strategy: Strategy::SlidingWindow,
    };
    let full = Entry { window_start: t0(), count: 0, prev_count: 4 };
    let quarter = t0().plus(Duration::from_millis(2_500));
    let mut e = full;
    assert_eq!(policy.decide(&mut e, quarter), Ok(()));
    assert_eq!(e.count, 1);
    let mut e = full;
    let sooner = Instant { nanos: quarter.nanos - 1 };
    assert_eq!(policy.decide(&mut e, sooner), Err(8));
    assert_eq!(e.count, 0, "a rejected request is not counted");
}

#[test]
fn a_long_idle_sliding_bucket_starts_afresh() {
    let policy = Policy {
        requests: 2,
        window: Duration::from_secs(10),
        strategy: Strategy::SlidingWindow,
    };
    let mut e = Entry { window_start: t0(), count: 2, prev_count: 2 };
    let later = t0().plus(Duration::from_secs(20));
    assert!(policy.is_idle(&e, later));
    assert!(!policy.is_idle(&e, t0().plus(Duration::from_secs(19))));
    assert_eq!(policy.decide(&mut e, later), Ok(()));
    assert_eq!(e, Entry { window_start: later, count: 1, prev_count: 0 });
}

#[test]
fn degenerate_limits() {
    let t0 = t0();
    let mut none = RouteLimiter::new(&rl(0, 10, Strategy::FixedWindow, Per::Ip), t0);
    assert_eq!(none.check(t0, ip(1)), Err(10));
    let mut instant = RouteLimiter::new(&rl(0, 0, Strategy::FixedWindow, Per::Ip), t0);
    assert_eq!(instant.check(t0, ip(1)), Err(1));
    let mut sliding = RouteLimiter::new(&rl(1, 0, Strategy::SlidingWindow, Per::Ip), t0);
    for _ in 0..5 {
        assert_eq!(sliding.check(t0, ip(1)), Ok(()));
    }
}

#[test]
fn v6_clients_have_buckets_of_their_own() {
    let t0 = t0();
    let mut limiter = RouteLimiter::new(&rl(1, 10, Strategy::FixedWindow, Per::Ip), t0);
    assert!(limiter.check(t0, IpAddr::V4(1)).is_ok());
    assert!(limiter.check(t0, IpAddr::V6(1)).is_ok());
    assert!(limiter.check(t0, IpAddr::V6(1)).is_err());
    assert_eq!(limiter.entry_count(), 2);
    limiter.sweep(t0.plus(Duration::from_secs(10)));
    assert_eq!(limiter.entry_count(), 0);
}

#[test]
fn sweeping_changes_no_decision() {
    let run = |sweep: bool| {
        let mut limiter = RouteLimiter::new(&rl(2, 10, Strategy::SlidingWindow, Per::Ip), t0());
        let mut seen = Vec::new();
        for i in 0..60 {
            let now = t0().plus(Duration::from_millis(i * 1_700));
            if sweep {
                limiter.sweep(now);
            }
            seen.push(limiter.check(now, ip(i as u32 % 3)));
        }
        seen
    };
    assert_eq!(run(true), run(false));
}

#[test]
fn registry_sweep_drops_idle_buckets() {
    let cfg = config(
        Some(rl(5, 10, Strategy::FixedWindow, Per::Ip)),
        vec![route("/a", "http://x", None)],
    );
    let mut reg = RateLimiterRegistry::build(&cfg, t0());
    let _ = reg.check(0, ip(1), t0());
    reg.sweep(t0().plus(Duration::from_secs(9)));
    assert_eq!(reg.entry_count(0), 1);
    reg.sweep(t0().plus(Duration::from_secs(10)));
    assert_eq!(reg.entry_count(0), 0);
}

#[test]
fn shards_are_stable_and_in_range() {
    for i in 0..200 {
        let s = shard_index(ip(i), SHARDS);
        assert!(s < SHARDS);
        assert_eq!(s, shard_index(ip(i), SHARDS));
    }
    let used: std::collections::HashSet<usize> =
        (0..200).map(|i| shard_index(ip(i), SHARDS)).collect();
    assert!(used.len() > 1, "addresses are spread over shards");
}

#[test]
fn wide_products_compare_exactly() {
    assert!(product_exceeds(u64::MAX, u128::MAX, u64::MAX, u128::MAX - 1));
    assert!(!product_exceeds(u64::MAX, u128::MAX, u64::MAX, u128::MAX));
    assert!(!product_exceeds(3, 7, 7, 3));
    assert!(product_exceeds(3, 8, 7, 3));
    assert!(!product_exceeds(0, u128::MAX, 0, 0));
}

#[test]
fn a_sliding_wait_is_long_enough() {
    let t0 = t0();
    let at = |secs: u64| t0.plus(Duration::from_secs(secs));
    let ip = IpAddr::V4(1);
    let full = || {
        let mut limiter = RouteLimiter::new(&rl(4, 10, Strategy::SlidingWindow, Per::Ip), t0);
        for _ in 0..4 {
            assert_eq!(limiter.check(t0, ip), Ok(()));
        }
        limiter
    };
    // A full window ends in ten seconds, and a quarter of the next one has to pass
    // before its weight leaves room for one: 12.5 s, rounded up.
    let mut limiter = full();
    assert_eq!(limiter.check(t0, ip), Err(13));
    assert_eq!(limiter.check(at(13), ip), Ok(()));
    let mut limiter = full();
    assert_eq!(limiter.check(t0.plus(Duration::from_millis(12_499)), ip), Err(8));
    assert_eq!(limiter.check(t0.plus(Duration::from_millis(12_500)), ip), Ok(()));
    // The current window is empty: its end is enough.
    let mut limiter = full();
    assert_eq!(limiter.check(at(10), ip), Err(10));
    assert_eq!(limiter.check(at(20), ip), Ok(()));
    // One request a window: it has to be forgotten altogether.
    let mut one = RouteLimiter::new(&rl(1, 10, Strategy::SlidingWindow, Per::Ip), t0);
    assert_eq!(one.check(t0, ip), Ok(()));
    assert_eq!(one.check(at(3), ip), Err(17));
    assert_eq!(one.check(at(20), ip), Ok(()));
}

#[test]
fn the_parts_of_a_limiter_count_as_the_whole() {
    let t0 = t0();
    for (per, n) in [(Per::Ip, 32), (Per::Global, 1)] {
        let mut whole = RouteLimiter::new(&rl(2, 10, Strategy::FixedWindow, per), t0);
        assert_eq!(whole.check(t0, IpAddr::V4(7)), Ok(()));
        let mut parts = whole.into_parts();
        assert_eq!(parts.len(), n);
        let i = shard_index(IpAddr::V4(7), n);
        assert_eq!(parts[i].check(t0, IpAddr::V4(7)), Ok(()));
        assert_eq!(parts[i].check(t0, IpAddr::V4(7)), Err(10));
    }
}

//! Configuration checks, durations, routing and the command line.

use gatewaykit::cli::{resolve_config_path, Startup};
use gatewaykit::clock::{ceil_secs, Duration, Instant};
use gatewaykit::config::{
    check_parts, effective_timeout, normalize_path, parse_duration, validate_upstream_url, Balance,
    Config, ConfigError, Gateway, Problem, Route, Target, Upstream, UrlIssue,
};
use gatewaykit::router::{match_prefix, Router};

fn upstream(url: Option<&str>, targets: &[(&str, u32)], balance: Option<Balance>) -> Upstream {
    Upstream {
        url: url.map(|u| u.to_string()),
        targets: targets
            .iter()
            .map(|(u, w)| Target { url: u.to_string(), weight: *w })
            .collect(),
        balance,
        timeout: None,
        health_check: None,
    }
}

fn route(path: &str, methods: &[&str], upstream: Upstream) -> Route {
    Route {
        path: path.to_string(),
        methods: methods.iter().map(|m| m.to_string()).collect(),
        strip_prefix: false,
        upstream,
        timeout: None,
        retry: None,
        rate_limit: None,
        auth: None,
        circuit_breaker: None,
        request_transform: None,
        response_transform: None,
    }
}

fn config(routes: Vec<Route>) -> Config {
    Config {
        gateway: Gateway { port: 8080, global_timeout: None, global_rate_limit: None },
        routes,
    }
}

fn problem(cfg: &Config) -> Problem {
    cfg.validate().unwrap_err().problem
}

// ── durations ────────────────────────────────────────────────────────────────

#[test]
fn parses_duration_units() {
    assert_eq!(parse_duration("30s").unwrap(), Duration::from_secs(30));
    assert_eq!(parse_duration("500ms").unwrap(), Duration::from_millis(500));
    assert_eq!(parse_duration("5m").unwrap(), Duration::from_secs(300));
    assert_eq!(parse_duration("1h").unwrap(), Duration::from_secs(3600));
}

#[test]
fn rejects_bad_durations() {
    assert!(parse_duration("30").is_err()); // no unit
    assert!(parse_duration("abc").is_err()); // no number
    assert!(parse_duration("10x").is_err()); // unknown unit
    assert!(parse_duration("").is_err());
}

#[test]
fn rejects_unparseable_duration() {
    assert!(parse_duration("not-a-duration").is_err());
}

#[test]
fn duration_errors_say_what_is_wrong() {
    let err = |s: &str| parse_duration(s).unwrap_err();
    assert_eq!(err("  "), "empty duration string");
    assert_eq!(err("30"), "duration '30' is missing a unit (expected e.g. '30s')");
    assert_eq!(err("abc"), "duration 'abc' has an invalid numeric part ''");
    assert_eq!(err("10x"), "duration '10x' has an unknown unit 'x'");
    assert_eq!(err("-5s"), "duration '-5s' has an invalid numeric part ''");
    assert_eq!(err("1 s"), "duration '1 s' has an unknown unit ' s'");
    assert_eq!(
        err("18446744073709551616s"),
        "duration '18446744073709551616s' has an invalid numeric part '18446744073709551616'"
    );
    assert_eq!(
        err("5124095576030432h"),
        "duration '5124095576030432h' has an invalid numeric part '5124095576030432'"
    );
}

#[test]
fn durations_at_their_edges() {
    assert_eq!(parse_duration(" \t7s\u{a0}\n").unwrap(), Duration::from_secs(7));
    assert_eq!(parse_duration("007ms").unwrap(), Duration::from_millis(7));
    assert_eq!(
        parse_duration("18446744073709551615s").unwrap(),
        Duration::from_secs(u64::MAX)
    );
    assert_eq!(
        parse_duration("307445734561825860m").unwrap(),
        Duration::from_secs(307445734561825860 * 60)
    );
}

#[test]
fn seconds_are_rounded_up() {
    assert_eq!(ceil_secs(Duration::from_millis(0)), 0);
    assert_eq!(ceil_secs(Duration::from_millis(1)), 1);
    assert_eq!(ceil_secs(Duration::from_millis(1000)), 1);
    assert_eq!(ceil_secs(Duration::from_millis(1001)), 2);
    assert_eq!(ceil_secs(Duration { nanos: u128::MAX }), u64::MAX);
    assert_eq!(
        Instant { nanos: 5 }.saturating_duration_since(Instant { nanos: 9 }),
        Duration { nanos: 0 }
    );
}

// ── validation ───────────────────────────────────────────────────────────────

#[test]
fn validate_rejects_upstream_without_url_or_targets() {
    let cfg = config(vec![route("/x", &["GET"], upstream(None, &[], None))]);
    assert!(cfg.validate().is_err());
    assert_eq!(problem(&cfg), Problem::NoUpstream);
}

#[test]
fn validate_rejects_upstream_with_both_url_and_targets() {
    let cfg = config(vec![route(
        "/x",
        &["GET"],
        upstream(Some("http://a"), &[("http://b", 1)], None),
    )]);
    assert!(cfg.validate().is_err());
    assert_eq!(problem(&cfg), Problem::UrlAndTargets);
}

#[test]
fn validate_rejects_duplicate_route_paths() {
    // "/api" and "/api/" normalize to the same path and must collide.
    let cfg = config(vec![
        route("/api", &["GET"], upstream(Some("http://a"), &[], None)),
        route("/api/", &["POST"], upstream(Some("http://b"), &[], None)),
    ]);
    assert!(cfg.validate().is_err());
    assert_eq!(
        cfg.validate().unwrap_err(),
        ConfigError { route: 1, problem: Problem::DuplicatePath { previous: 0 } }
    );
}

#[test]
fn validate_rejects_weighted_round_robin_with_zero_weight() {
    let cfg = config(vec![route(
        "/x",
        &["GET"],
        upstream(
            None,
            &[("http://a", 3), ("http://b", 0)],
            Some(Balance::WeightedRoundRobin),
        ),
    )]);
    assert!(cfg.validate().is_err());
    assert_eq!(problem(&cfg), Problem::ZeroWeight { target: 1 });
}

#[test]
fn validate_accepts_weighted_round_robin_with_positive_weights() {
    let cfg = config(vec![route(
        "/x",
        &["GET"],
        upstream(
            None,
            &[("http://a", 3), ("http://b", 1)],
            Some(Balance::WeightedRoundRobin),
        ),
    )]);
    assert!(cfg.validate().is_ok());
}

#[test]
fn validate_rejects_balance_without_targets() {
    // `balance` is meaningless over a single `url`.
    let cfg = config(vec![route(
        "/x",
        &["GET"],
        upstream(Some("http://a"), &[], Some(Balance::RoundRobin)),
    )]);
    assert!(cfg.validate().is_err());
    assert_eq!(problem(&cfg), Problem::BalanceWithoutTargets);
}

#[test]
fn validate_accepts_normal_config() {
    // Guard against false positives: distinct paths, balanced targets.
    let cfg = config(vec![
        route(
            "/api/users",
            &["GET", "POST"],
            upstream(Some("http://localhost:3001"), &[], None),
        ),
        route(
            "/api/products",
            &["GET"],
            upstream(
                None,
                &[("http://localhost:3003", 1), ("http://localhost:3004", 1)],
                Some(Balance::RoundRobin),
            ),
        ),
    ]);
    assert!(cfg.validate().is_ok());
    assert!(cfg.check().is_ok());
}

#[test]
fn validate_rejects_schemeless_upstream_url() {
    // "localhost:3001" (no scheme) parses as a URI but has no http/https
    // scheme; it would 502 on every request, so reject it at load.
    let cfg = config(vec![route("/x", &["GET"], upstream(Some("localhost:3001"), &[], None))]);
    assert!(cfg.validate().is_err());
    assert_eq!(problem(&cfg), Problem::BadUrl { issue: UrlIssue::NoScheme });
}

#[test]
fn validate_rejects_empty_upstream_url() {
    let cfg = config(vec![route("/x", &["GET"], upstream(Some(""), &[], None))]);
    assert!(cfg.validate().is_err());
    assert_eq!(problem(&cfg), Problem::BadUrl { issue: UrlIssue::NotAUri });
}

#[test]
fn validate_rejects_schemeless_target_url() {
    let cfg = config(vec![route(
        "/x",
        &["GET"],
        upstream(
            None,
            &[("http://localhost:3003", 1), ("localhost:3004", 1)],
            Some(Balance::RoundRobin),
        ),
    )]);
    assert!(cfg.validate().is_err());
    assert_eq!(
        problem(&cfg),
        Problem::BadTargetUrl { target: 1, issue: UrlIssue::NoScheme }
    );
}

#[test]
fn validate_checks_path_and_methods_first() {
    let cfg = config(vec![route("x", &[], upstream(None, &[], None))]);
    assert_eq!(problem(&cfg), Problem::PathWithoutSlash);
    let cfg = config(vec![route("", &["GET"], upstream(Some("http://a"), &[], None))]);
    assert_eq!(problem(&cfg), Problem::PathWithoutSlash);
    let cfg = config(vec![route("/x", &[], upstream(None, &[], None))]);
    assert_eq!(problem(&cfg), Problem::NoMethods);
}

#[test]
fn validate_names_the_first_bad_route() {
    let good = || upstream(Some("http://a"), &[], None);
    let cfg = config(vec![
        route("/a", &["GET"], good()),
        route("/b", &[], good()),
        route("/c", &[], good()),
    ]);
    assert_eq!(
        cfg.validate().unwrap_err(),
        ConfigError { route: 1, problem: Problem::NoMethods }
    );
    let root = config(vec![route("/", &["GET"], good()), route("//", &["GET"], good())]);
    assert_eq!(problem(&root), Problem::DuplicatePath { previous: 0 });
}

#[test]
fn url_issues() {
    assert_eq!(validate_upstream_url("http://localhost:3001"), None);
    assert_eq!(validate_upstream_url("https://example.com/base"), None);
    assert_eq!(validate_upstream_url("ftp://host"), Some(UrlIssue::UnsupportedScheme));
    assert_eq!(validate_upstream_url("/path"), Some(UrlIssue::NoScheme));
    assert_eq!(validate_upstream_url("http://ho st"), Some(UrlIssue::NotAUri));
    assert_eq!(check_parts(Some("http"), None), Some(UrlIssue::NoHost));
    assert_eq!(check_parts(Some("https"), Some("h")), None);
    assert_eq!(check_parts(Some("ws"), Some("h")), Some(UrlIssue::UnsupportedScheme));
    assert_eq!(check_parts(None, Some("h")), Some(UrlIssue::NoScheme));
}

#[test]
fn error_messages() {
    let chain = |r: Route| config(vec![r]).check().unwrap_err();
    let text = |r: Route| {
        let mut texts = chain(r);
        assert_eq!(texts.len(), 1);
        texts.remove(0)
    };
    assert_eq!(
        text(route("x", &["GET"], upstream(Some("http://a"), &[], None))),
        "route[0] (path 'x'): path must start with '/'"
    );
    assert_eq!(
        text(route("/x", &[], upstream(Some("http://a"), &[], None))),
        "route[0] (path '/x'): 'methods' must list at least one HTTP method"
    );
    assert_eq!(
        text(route("/x", &["GET"], upstream(Some("http://a"), &[("http://b", 1)], None))),
        "route[0] (path '/x'): upstream sets both 'url' and 'targets'; use exactly one"
    );
    assert_eq!(
        text(route("/x", &["GET"], upstream(None, &[], None))),
        "route[0] (path '/x'): upstream must set either 'url' or 'targets'"
    );
    // What the URL parser says stands below what is wrong.
    assert_eq!(
        chain(route("/x", &["GET"], upstream(Some(""), &[], None))),
        vec!["route[0] (path '/x'): upstream url '' is not a valid URI", "empty string"]
    );
    assert_eq!(
        chain(route("/x", &["GET"], upstream(None, &[("http://ho st", 1)], None))),
        vec![
            "route[0] (path '/x') targets[0]: upstream url 'http://ho st' is not a valid URI",
            "invalid uri character"
        ]
    );
    assert_eq!(
        text(route("/x", &["GET"], upstream(Some("ftp://h"), &[], None))),
        "route[0] (path '/x'): upstream url 'ftp://h' has unsupported scheme 'ftp' (expected http/https)"
    );
    assert_eq!(
        text(route("/x", &["GET"], upstream(None, &[("http://a", 1), ("/p", 1)], None))),
        "route[0] (path '/x') targets[1]: upstream url '/p' must be absolute with an http/https scheme"
    );
    assert_eq!(
        text(route("/x", &["GET"], upstream(Some("http://a"), &[], Some(Balance::RoundRobin)))),
        "route[0] (path '/x'): 'balance' requires 'targets'; a single 'url' has nothing to balance"
    );
    assert_eq!(
        text(route(
            "/x",
            &["GET"],
            upstream(None, &[("http://a", 0)], Some(Balance::WeightedRoundRobin))
        )),
        "route[0] (path '/x'): targets[0] (url 'http://a') has weight 0; 'weighted_round_robin' requires weight > 0"
    );
    let twice = config(vec![
        route("/api", &["GET"], upstream(Some("http://a"), &[], None)),
        route("/api/", &["GET"], upstream(Some("http://a"), &[], None)),
    ]);
    assert_eq!(
        twice.check().unwrap_err().concat(),
        "route[1] (path '/api/'): duplicate route path (collides with route[0] after normalization to '/api')"
    );
}

#[test]
fn paths_are_normalized() {
    assert_eq!(normalize_path("/api/"), "/api");
    assert_eq!(normalize_path("/api//"), "/api");
    assert_eq!(normalize_path("/"), "/");
    assert_eq!(normalize_path("///"), "/");
    assert_eq!(normalize_path(""), "/");
}

#[test]
fn route_timeout_overrides_longer_global_timeout() {
    let gateway = Gateway {
        port: 1,
        global_timeout: Some(Duration::from_secs(30)),
        global_rate_limit: None,
    };
    let mut r = route("/x", &["GET"], upstream(Some("http://a"), &[], None));
    assert_eq!(effective_timeout(&r, &gateway), Some(Duration::from_secs(30)));
    r.upstream.timeout = Some(Duration::from_secs(10));
    assert_eq!(effective_timeout(&r, &gateway), Some(Duration::from_secs(10)));
    r.timeout = Some(Duration::from_secs(5));
    assert_eq!(effective_timeout(&r, &gateway), Some(Duration::from_secs(5)));
    let none = Gateway { port: 1, global_timeout: None, global_rate_limit: None };
    let bare = route("/x", &["GET"], upstream(Some("http://a"), &[], None));
    assert_eq!(effective_timeout(&bare, &none), None);
}

// ── routing ──────────────────────────────────────────────────────────────────

fn cfg(paths: &[&str]) -> Config {
    config(
        paths
            .iter()
            .map(|p| route(p, &["GET"], upstream(Some("http://x"), &[], None)))
            .collect(),
    )
}

#[test]
fn longest_prefix_wins_regardless_of_declaration_order() {
    let config = cfg(&["/api", "/api/special"]);
    let router = Router::build(&config);
    // `/api/special/x` must pick the more specific route, not `/api`.
    let m = router.match_route("/api/special/x").unwrap();
    assert_eq!(config.routes[m.route_index].path, "/api/special");
    assert_eq!(m.tail, "/x");

    let m = router.match_route("/api/other").unwrap();
    assert_eq!(config.routes[m.route_index].path, "/api");
}

#[test]
fn respects_segment_boundaries_and_misses() {
    let config = cfg(&["/api/users"]);
    let router = Router::build(&config);
    assert!(router.match_route("/api/users").is_some());
    assert!(router.match_route("/api/users/42").is_some());
    assert!(router.match_route("/api/usersX").is_none());
    assert!(router.match_route("/nope").is_none());
}

#[test]
fn exact_match_has_root_tail() {
    let config = cfg(&["/api/users"]);
    let router = Router::build(&config);
    assert_eq!(router.match_route("/api/users").unwrap().tail, "/");
}

#[test]
fn root_matches_what_nothing_else_does() {
    let config = cfg(&["/", "/a", "/a/b/"]);
    let router = Router::build(&config);
    let m = router.match_route("/zzz").unwrap();
    assert_eq!((m.route_index, m.tail.as_str()), (0, "/zzz"));
    let m = router.match_route("/a/b/c").unwrap();
    assert_eq!((m.route_index, m.tail.as_str()), (2, "/c"));
    let m = router.match_route("/a/bc").unwrap();
    assert_eq!((m.route_index, m.tail.as_str()), (1, "/bc"));
}

#[test]
fn the_first_of_equal_routes_wins() {
    let config = cfg(&["/a/", "/a"]);
    let router = Router::build(&config);
    assert_eq!(router.match_route("/a/x").unwrap().route_index, 0);
    assert_eq!(match_prefix("/é", "/é/x").as_deref(), Some("/x"));
    assert_eq!(match_prefix("/é", "/éx"), None);
}

// ── command line ─────────────────────────────────────────────────────────────

fn startup(args: &[&str], variable: Option<&str>) -> String {
    let args: Vec<String> = args.iter().map(|a| a.to_string()).collect();
    match resolve_config_path(&args, variable) {
        Startup::Help => "help".to_string(),
        Startup::Config(p) => format!("config {p}"),
        Startup::MissingPath => "missing path".to_string(),
        Startup::NoConfig => "no config".to_string(),
    }
}

#[test]
fn the_command_line_wins_over_the_environment() {
    assert_eq!(startup(&["--config", "a.yaml"], Some("b.yaml")), "config a.yaml");
    assert_eq!(startup(&["--config=a.yaml"], Some("b.yaml")), "config a.yaml");
    assert_eq!(startup(&["--config=x", "--config", "y"], None), "config y");
    assert_eq!(startup(&[], Some("b.yaml")), "config b.yaml");
    assert_eq!(startup(&["other"], Some("")), "no config");
    assert_eq!(startup(&[], None), "no config");
    assert_eq!(startup(&["--config"], Some("b.yaml")), "missing path");
    assert_eq!(startup(&["--config", "a", "-h"], None), "help");
    assert_eq!(startup(&["--help"], None), "help");
    assert_eq!(startup(&["--config="], Some("b")), "config ");
}

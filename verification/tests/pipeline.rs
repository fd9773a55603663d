//! The pipeline from a request to its reply.

use gatewaykit::clock::{Duration, Instant};
use gatewaykit::config::{
    Auth, AuthType, Config, Gateway, HeaderTransform, Per, RateLimit, RequestTransform,
    ResponseBodyTransform, ResponseTransform, Route, Strategy, Upstream,
};
use gatewaykit::error::{GatewayError, Reply};
use gatewaykit::health::health_response;
use gatewaykit::pipeline::auth::AuthStage;
use gatewaykit::pipeline::method::MethodStage;
use gatewaykit::pipeline::{
    assemble, assemble_response, conclude, dispatch, run_stages, Answer, Dispatch, Flow,
    RequestCtx, Stage,
};
use gatewaykit::rate_limit::IpAddr;
use gatewaykit::state::AppState;
use gatewaykit::text::{
    decimal_str, eq_ignore_ascii_case, is_before, is_whitespace, join, split, strip_prefix, trim,
    trim_end_slashes, StringMap,
};
use hyper::header::HeaderMap;

fn t0() -> Instant {
    Instant { nanos: 3_000_000_000_000 }
}

fn header(r: &Reply, name: &str) -> Option<String> {
    r.headers.iter().find(|(n, _)| n == name).map(|(_, v)| v.clone())
}

// ── errors ───────────────────────────────────────────────────────────────────

#[test]
fn every_error_has_its_reply() {
    let cases: Vec<(GatewayError, u16, &str)> = vec![
        (GatewayError::NotFound, 404, "{\"error\":\"not_found\"}"),
        (
            GatewayError::method_not_allowed(&["GET".to_string(), "PUT".to_string()]),
            405,
            "{\"error\":\"method_not_allowed\"}",
        ),
        (GatewayError::BadGateway("secret".to_string()), 502, "{\"error\":\"bad_gateway\"}"),
        (GatewayError::RateLimited { retry_after: 7 }, 429, "{\"error\":\"rate_limited\"}"),
        (GatewayError::GatewayTimeout, 504, "{\"error\":\"gateway_timeout\"}"),
        (GatewayError::Unauthorized, 401, "{\"error\":\"unauthorized\"}"),
        (
            GatewayError::CircuitOpen { retry_after: 12 },
            503,
            "{\"error\":\"service_unavailable\",\"retry_after\":12}",
        ),
        (GatewayError::AllTargetsUnhealthy, 503, "{\"error\":\"service_unavailable\"}"),
        (GatewayError::PayloadTooLarge, 413, "{\"error\":\"payload_too_large\"}"),
    ];
    for (e, status, body) in cases {
        assert_eq!(e.status(), status);
        let r = e.into_response();
        assert_eq!(r.status, status);
        assert_eq!(r.body, body);
        assert_eq!(header(&r, "content-type").as_deref(), Some("application/json"));
    }
}

#[test]
fn replies_carry_the_headers_of_their_error() {
    let r = GatewayError::method_not_allowed(&["GET".to_string(), "PUT".to_string()]).into_response();
    assert_eq!(header(&r, "allow").as_deref(), Some("GET, PUT"));
    let r = GatewayError::method_not_allowed(&["G\nET".to_string()]).into_response();
    assert_eq!(header(&r, "allow"), None, "illegal in a header, so left out");
    let r = GatewayError::RateLimited { retry_after: 60 }.into_response();
    assert_eq!(header(&r, "retry-after").as_deref(), Some("60"));
    assert_eq!(r.headers.len(), 2);
}

#[test]
fn error_texts() {
    assert_eq!(GatewayError::NotFound.message(), "no route matches the request path");
    assert_eq!(
        GatewayError::method_not_allowed(&["GET".to_string()]).message(),
        "method not allowed (allowed: GET)"
    );
    assert_eq!(GatewayError::BadGateway("x".to_string()).message(), "bad gateway: x");
    assert_eq!(
        GatewayError::RateLimited { retry_after: 3 }.message(),
        "rate limit exceeded (retry after 3s)"
    );
    assert_eq!(GatewayError::GatewayTimeout.message(), "upstream timed out");
    assert_eq!(GatewayError::Unauthorized.message(), "unauthorized");
    assert_eq!(
        GatewayError::CircuitOpen { retry_after: 3 }.message(),
        "circuit open (retry after 3s)"
    );
    assert_eq!(
        GatewayError::AllTargetsUnhealthy.message(),
        "all upstream targets are unhealthy"
    );
    assert_eq!(GatewayError::PayloadTooLarge.message(), "request body too large");
    assert_eq!(GatewayError::PayloadTooLarge.code(), "payload_too_large");
}

// ── authentication ───────────────────────────────────────────────────────────

fn stage(header: &str, keys: &[&str]) -> AuthStage {
    AuthStage::new(&Auth {
        auth_type: AuthType::ApiKey,
        header: header.to_string(),
        keys: keys.iter().map(|k| k.to_string()).collect(),
    })
}

#[test]
fn accepts_a_configured_key() {
    let s = stage("X-API-Key", &["sk_live_abc123", "sk_live_def456"]);
    assert!(s.matches(b"sk_live_abc123"));
    assert!(s.matches(b"sk_live_def456"));
}

#[test]
fn rejects_a_wrong_key() {
    let s = stage("X-API-Key", &["sk_live_abc123"]);
    assert!(!s.matches(b"sk_live_wrong"));
    // A prefix / different-length near-miss is also a non-match.
    assert!(!s.matches(b"sk_live_abc"));
    assert!(!s.matches(b"sk_live_abc1234"));
}

#[test]
fn rejects_when_no_keys_configured() {
    let s = stage("X-API-Key", &[]);
    assert!(!s.matches(b"anything"));
    assert!(!s.matches(b""));
}

#[test]
fn header_lookup_is_case_insensitive() {
    // A client may send any casing of the configured header name and still be
    // matched.
    let s = stage("X-API-Key", &["sk_live_abc123"]);
    let mut headers = HeaderMap::new();
    headers.insert("x-api-key", "sk_live_abc123".parse().unwrap());
    let value = headers.get(&s.header).expect("case-insensitive lookup");
    assert!(s.matches(value.as_bytes()));
    assert!(s.authorizes(&headers));
}

#[test]
fn only_the_first_value_of_the_header_counts() {
    let s = stage("X-API-Key", &["good"]);
    let mut headers = HeaderMap::new();
    assert!(!s.authorizes(&headers));
    headers.append("x-api-key", "bad".parse().unwrap());
    headers.append("x-api-key", "good".parse().unwrap());
    assert!(!s.authorizes(&headers));
    assert!(!stage("not a name", &["good"]).authorizes(&headers));
}

#[test]
fn methods_are_compared_without_case() {
    let s = MethodStage::new(&["get".to_string(), "POST".to_string()]);
    assert!(s.allows("GET"));
    assert!(s.allows("post"));
    assert!(!s.allows("PUT"));
    assert!(!MethodStage::new(&[]).allows("GET"));
}

// ── the chain ────────────────────────────────────────────────────────────────

fn route(path: &str) -> Route {
    Route {
        path: path.to_string(),
        methods: vec!["GET".to_string()],
        strip_prefix: false,
        upstream: Upstream {
            url: Some("http://x".to_string()),
            targets: vec![],
            balance: None,
            timeout: None,
            health_check: None,
        },
        timeout: None,
        retry: None,
        rate_limit: None,
        auth: None,
        circuit_breaker: None,
        request_transform: None,
        response_transform: None,
    }
}

fn guarded() -> Route {
    let mut r = route("/guarded");
    r.auth = Some(Auth {
        auth_type: AuthType::ApiKey,
        header: "X-API-Key".to_string(),
        keys: vec!["k".to_string()],
    });
    r.rate_limit = Some(RateLimit {
        requests: 1,
        window: Duration::from_secs(60),
        strategy: Strategy::FixedWindow,
        per: Per::Ip,
    });
    let mut add = StringMap::new();
    add.insert("X-At".to_string(), "$request_time".to_string());
    r.request_transform = Some(RequestTransform {
        headers: Some(HeaderTransform { add, remove: vec!["X-Debug".to_string()] }),
        body: None,
    });
    r
}

fn config(routes: Vec<Route>) -> Config {
    Config {
        gateway: Gateway { port: 8080, global_timeout: None, global_rate_limit: None },
        routes,
    }
}

fn ctx(method: &str, key: Option<&str>) -> RequestCtx {
    let mut headers = HeaderMap::new();
    if let Some(k) = key {
        headers.insert("x-api-key", k.parse().unwrap());
    }
    headers.insert("x-debug", "1".parse().unwrap());
    RequestCtx {
        route_index: 0,
        tail: "/".to_string(),
        client_ip: IpAddr::V4(1),
        method: method.to_string(),
        headers,
        request_time: "T".to_string(),
    }
}

fn status(flow: Flow) -> u16 {
    match flow {
        Flow::Continue => 0,
        Flow::ShortCircuit(r) => r.status,
    }
}

#[test]
fn chains_follow_the_configuration() {
    let chains = assemble(&config(vec![guarded(), route("/open")]));
    assert_eq!(chains.len(), 2);
    assert_eq!(chains[0].len(), 4);
    assert!(matches!(chains[0][0], Stage::Method(_)));
    assert!(matches!(chains[0][1], Stage::Auth(_)));
    assert!(matches!(chains[0][2], Stage::RateLimit(_)));
    assert!(matches!(chains[0][3], Stage::RequestTransform(_)));
    assert_eq!(chains[1].len(), 1);
}

#[test]
fn auth_runs_before_rate_limit() {
    let mut state = AppState::new(config(vec![guarded()]), t0());
    let chain = &state.stages[0];
    let limiter = &mut state.rate_limiters.limiters[0];
    // Refused requests use up nothing.
    for _ in 0..3 {
        assert_eq!(status(run_stages(chain, &mut ctx("GET", Some("bad")), limiter, t0())), 401);
        assert_eq!(status(run_stages(chain, &mut ctx("GET", None), limiter, t0())), 401);
        assert_eq!(status(run_stages(chain, &mut ctx("PUT", Some("k")), limiter, t0())), 405);
    }
    let mut passed = ctx("GET", Some("k"));
    assert_eq!(status(run_stages(chain, &mut passed, limiter, t0())), 0);
    assert_eq!(passed.headers.get("x-at").unwrap(), "T");
    assert!(passed.headers.get("x-debug").is_none());
    let mut limited = ctx("GET", Some("k"));
    match run_stages(chain, &mut limited, limiter, t0()) {
        Flow::ShortCircuit(r) => {
            assert_eq!(r.status, 429);
            assert_eq!(header(&r, "retry-after").as_deref(), Some("60"));
        }
        Flow::Continue => panic!("expected 429"),
    }
    assert!(limited.headers.get("x-at").is_none(), "not transformed when refused");
    let mut other = ctx("GET", Some("k"));
    other.client_ip = IpAddr::V4(2);
    assert_eq!(status(run_stages(chain, &mut other, limiter, t0())), 0);
}

#[test]
fn wrong_method_returns_405_with_allow_header() {
    let mut state = AppState::new(config(vec![route("/open")]), t0());
    let flow = run_stages(
        &state.stages[0],
        &mut ctx("DELETE", None),
        &mut state.rate_limiters.limiters[0],
        t0(),
    );
    match flow {
        Flow::ShortCircuit(r) => {
            assert_eq!(r.status, 405);
            assert_eq!(header(&r, "allow").as_deref(), Some("GET"));
        }
        Flow::Continue => panic!("expected 405"),
    }
}

#[test]
fn health_endpoint_returns_expected_shape() {
    let r = health_response(t0(), t0().plus(Duration::from_millis(3_900)));
    assert_eq!(r.status, 200);
    assert_eq!(r.body, "{\"status\":\"healthy\",\"uptime_seconds\":3}");
    assert_eq!(header(&r, "content-type").as_deref(), Some("application/json"));
}

#[test]
fn health_cannot_be_shadowed() {
    let state = AppState::new(config(vec![route("/health"), route("/")]), t0());
    match dispatch(&state.router, "GET", "/health", state.start, t0()) {
        Dispatch::Reply(r) => assert_eq!(r.status, 200),
        Dispatch::Route(_) => panic!("routed"),
    }
    match dispatch(&state.router, "POST", "/health", state.start, t0()) {
        Dispatch::Reply(r) => {
            assert_eq!(r.status, 405);
            assert_eq!(header(&r, "allow").as_deref(), Some("GET"));
        }
        Dispatch::Route(_) => panic!("routed"),
    }
    match dispatch(&state.router, "GET", "/health/x", state.start, t0()) {
        Dispatch::Route(m) => assert_eq!((m.route_index, m.tail.as_str()), (0, "/x")),
        Dispatch::Reply(_) => panic!("answered"),
    }
}

#[test]
fn unmatched_path_returns_404() {
    let state = AppState::new(config(vec![route("/a")]), t0());
    match dispatch(&state.router, "GET", "/b", state.start, t0()) {
        Dispatch::Reply(r) => {
            assert_eq!(r.status, 404);
            assert_eq!(r.body, "{\"error\":\"not_found\"}");
        }
        Dispatch::Route(_) => panic!("routed"),
    }
}

#[test]
fn envelope_not_applied_to_gateway_errors() {
    let mut r = route("/e");
    r.response_transform = Some(ResponseTransform {
        headers: None,
        body: Some(ResponseBodyTransform {
            envelope: Some(serde_yaml::from_str("data: \"$body\"").unwrap()),
        }),
    });
    let cfg = config(vec![r]);
    let chains = assemble_response(&cfg);
    let mut h = HeaderMap::new();
    h.insert("connection", "close".parse().unwrap());
    match conclude(&chains[0], &cfg.routes[0], None, &mut h, b"hi", "T") {
        Answer::Upstream { body } => assert_eq!(body.unwrap(), br#"{"data":"hi"}"#),
        Answer::Gateway(_) => panic!("answered by the gateway"),
    }
    assert!(h.get("connection").is_none());
    assert_eq!(h.get("content-type").unwrap(), "application/json");
    let mut h = HeaderMap::new();
    match conclude(
        &chains[0],
        &cfg.routes[0],
        Some(GatewayError::GatewayTimeout),
        &mut h,
        b"hi",
        "T",
    ) {
        Answer::Gateway(r) => assert_eq!(r.body, "{\"error\":\"gateway_timeout\"}"),
        Answer::Upstream { .. } => panic!("relayed"),
    }
    assert!(h.is_empty());
}

#[test]
fn a_plain_route_relays_as_is() {
    let cfg = config(vec![route("/p")]);
    let chains = assemble_response(&cfg);
    assert!(chains[0].is_empty());
    let mut h = HeaderMap::new();
    h.insert("x-server", "A".parse().unwrap());
    match conclude(&chains[0], &cfg.routes[0], None, &mut h, b"", "T") {
        Answer::Upstream { body } => assert!(body.is_none()),
        Answer::Gateway(_) => panic!("answered by the gateway"),
    }
    assert_eq!(h.get("x-server").unwrap(), "A");
}

#[test]
fn state_is_aligned_with_the_routes() {
    let state = AppState::new(config(vec![guarded(), route("/open")]), t0());
    assert_eq!(state.stages.len(), 2);
    assert_eq!(state.response_stages.len(), 2);
    assert_eq!(state.upstreams.routes.len(), 2);
    assert!(state.rate_limiters.limiters[0].is_some());
    assert!(state.rate_limiters.limiters[1].is_none());
    assert_eq!(state.start, t0());
}

// ── strings ──────────────────────────────────────────────────────────────────

#[test]
fn white_space_is_what_the_standard_library_says() {
    for u in 0..=0x10ffff {
        if let Some(c) = char::from_u32(u) {
            assert_eq!(is_whitespace(c), c.is_whitespace(), "U+{u:04X}");
        }
    }
}

#[test]
fn string_helpers_agree_with_the_standard_library() {
    for s in ["", " ", "a", " a b ", "\u{3000}x\u{2003}", "/", "//", "/a//", "é/", "a.b", ".", "a..b."] {
        assert_eq!(trim(s), s.trim());
        assert_eq!(trim_end_slashes(s), s.trim_end_matches('/'));
        assert_eq!(split(s, '.'), s.split('.').collect::<Vec<_>>());
        for t in ["", "a", "A", "/", "é", "a.", " a"] {
            assert_eq!(strip_prefix(s, t), s.strip_prefix(t));
            assert_eq!(is_before(s, t), s < t);
            assert_eq!(eq_ignore_ascii_case(s, t), s.eq_ignore_ascii_case(t));
        }
    }
    for n in [0, 7, 10, 99, 100, 1_234_567_890, u64::MAX] {
        assert_eq!(decimal_str(n), n.to_string());
    }
    let v = vec!["a".to_string(), "".to_string(), "c".to_string()];
    assert_eq!(join(&v, ", "), v.join(", "));
    assert_eq!(join(&[], ", "), "");
}

//! Header and body transforms, JSON paths and timestamps.

use std::time::{Duration, UNIX_EPOCH};

use gatewaykit::config::{
    Backoff, HeaderTransform, RequestBodyTransform, RequestTransform, ResponseBodyTransform,
    ResponseTransform, Retry, Route, Upstream,
};
use gatewaykit::headers::{forward_fields, is_hop_by_hop, strip_hop_by_hop};
use gatewaykit::json::{json_get, json_set};
use gatewaykit::pipeline::request_transform::{
    apply_body_mapping, map_body, RequestTransformStage,
};
use gatewaykit::pipeline::response_transform::{apply, body_value, substitute};
use gatewaykit::pipeline::transform::{
    format_rfc3339_utc, format_unix_secs, now_rfc3339, resolve_value,
};
use gatewaykit::pipeline::{buffers_body, map_request_body, needs_body};
use gatewaykit::text::StringMap;
use hyper::header::{HeaderMap, HeaderValue};
use serde_json::Value;

fn parse(s: &str) -> Value {
    serde_json::from_str(s).unwrap()
}

fn yaml(s: &str) -> serde_yaml::Value {
    serde_yaml::from_str(s).unwrap()
}

fn map(pairs: &[(&str, &str)]) -> StringMap {
    let mut m = StringMap::new();
    for (k, v) in pairs {
        m.insert(k.to_string(), v.to_string());
    }
    m
}

fn stage(add: &[(&str, &str)], remove: &[&str]) -> RequestTransformStage {
    RequestTransformStage::new(&HeaderTransform {
        add: map(add),
        remove: remove.iter().map(|s| s.to_string()).collect(),
    })
}

// ── timestamps and values ────────────────────────────────────────────────────

fn at(secs: u64) -> String {
    format_rfc3339_utc(UNIX_EPOCH + Duration::from_secs(secs))
}

#[test]
fn formats_known_epochs() {
    assert_eq!(at(0), "1970-01-01T00:00:00Z");
    // 2021-01-01T00:00:00Z
    assert_eq!(at(1_609_459_200), "2021-01-01T00:00:00Z");
    // 2001-09-09T01:46:40Z (the classic 1e9 timestamp)
    assert_eq!(at(1_000_000_000), "2001-09-09T01:46:40Z");
    // A leap day: 2020-02-29T12:34:56Z
    assert_eq!(at(1_582_979_696), "2020-02-29T12:34:56Z");
}

#[test]
fn times_outside_the_calendar_are_the_epoch() {
    assert_eq!(format_rfc3339_utc(UNIX_EPOCH - Duration::from_secs(1)), "1970-01-01T00:00:00Z");
    assert_eq!(at(253_402_300_799), "9999-12-31T23:59:59Z");
    assert_eq!(at(253_402_300_800), "1970-01-01T00:00:00Z");
    assert_eq!(format_unix_secs(253_402_300_799), "9999-12-31T23:59:59Z");
    assert_eq!(format_unix_secs(u64::MAX), "1970-01-01T00:00:00Z");
    assert_eq!(format_unix_secs(1_582_979_696), "2020-02-29T12:34:56Z");
    let late = UNIX_EPOCH + Duration::from_millis(86_399_999);
    assert_eq!(format_rfc3339_utc(late), "1970-01-01T23:59:59Z");
}

#[test]
fn the_current_time_has_the_usual_shape() {
    let s = now_rfc3339();
    assert_eq!(s.len(), 20);
    assert_eq!(&s[10..11], "T");
    assert!(s.ends_with('Z'));
    assert!(s.as_str() > "2020");
}

#[test]
fn resolves_value_specs() {
    assert_eq!(resolve_value("$literal:gateway", "T"), "gateway");
    assert_eq!(resolve_value("$request_time", "T"), "T");
    assert_eq!(resolve_value("$response_time", "T"), "T");
    assert_eq!(resolve_value("plain", "T"), "plain");
    // $literal preserves a leading `$` in the payload.
    assert_eq!(resolve_value("$literal:$request_time", "T"), "$request_time");
}

// ── JSON paths ───────────────────────────────────────────────────────────────

#[test]
fn json_get_reads_dot_paths() {
    let v: Value = parse(r#"{"user": {"id": 7, "name": "ada"}, "top": 1}"#);
    assert_eq!(json_get(&v, "user.id"), Some(&Value::from(7)));
    assert_eq!(json_get(&v, "user.name"), Some(&Value::from("ada")));
    assert_eq!(json_get(&v, "top"), Some(&Value::from(1)));
    assert_eq!(json_get(&v, "user.missing"), None);
    assert_eq!(json_get(&v, "top.nope"), None); // traverse into non-object
}

#[test]
fn json_set_builds_nested_objects() {
    let mut v = Value::Object(serde_json::Map::new());
    json_set(&mut v, "user.id", Value::from(7));
    json_set(&mut v, "user.name", Value::from("ada"));
    json_set(&mut v, "meta.source", Value::from("gateway"));
    assert_eq!(
        v,
        parse(r#"{"user": {"id": 7, "name": "ada"}, "meta": {"source": "gateway"}}"#)
    );
}

#[test]
fn json_paths_at_their_edges() {
    let mut v = parse(r#"{"a": 1}"#);
    assert_eq!(json_get(&v, ""), Some(&parse(r#"{"a": 1}"#)));
    // A value on the way that is no object is replaced by one.
    json_set(&mut v, "a.b", Value::from(2));
    assert_eq!(v, parse(r#"{"a": {"b": 2}}"#));
    // Empty segments are member names like any other.
    json_set(&mut v, "x..y", Value::Null);
    assert_eq!(v, parse(r#"{"a": {"b": 2}, "x": {"": {"y": null}}}"#));
    assert_eq!(json_get(&v, "x..y"), Some(&Value::Null));
    json_set(&mut v, "", Value::from("whole"));
    assert_eq!(v, Value::from("whole"));
    // Arrays are not traversed.
    assert_eq!(json_get(&parse(r#"{"l": [1]}"#), "l.0"), None);
}

// ── request headers ──────────────────────────────────────────────────────────

#[test]
fn rewrite_adds_and_overwrites() {
    let s = stage(
        &[("X-Added", "$literal:v"), ("X-Trace", "$request_time")],
        &[],
    );
    let mut headers = HeaderMap::new();
    // A pre-existing value for a to-be-added name must be overwritten.
    headers.insert("x-added", "old".parse().unwrap());
    s.rewrite(&mut headers, "2021-01-01T00:00:00Z");

    assert_eq!(headers.get("X-Added").unwrap(), "v");
    // $request_time resolves to the passed-in per-request timestamp.
    assert_eq!(headers.get("X-Trace").unwrap(), "2021-01-01T00:00:00Z");
}

#[test]
fn rewrite_removes_case_insensitively() {
    let s = stage(&[], &["X-Drop-Me"]);
    let mut headers = HeaderMap::new();
    // Sent with different casing than configured — HTTP header match is
    // case-insensitive, so it must still be stripped.
    headers.insert("x-drop-me", "secret".parse().unwrap());
    headers.insert("x-keep", "ok".parse().unwrap());
    s.rewrite(&mut headers, "T");

    assert!(headers.get("X-Drop-Me").is_none());
    assert_eq!(headers.get("x-keep").unwrap(), "ok");
}

#[test]
fn rewrite_remove_then_add_lets_add_win() {
    // A name in both lists ends up with the add value, not removed.
    let s = stage(&[("X-Both", "$literal:new")], &["X-Both"]);
    let mut headers = HeaderMap::new();
    headers.insert("x-both", "old".parse().unwrap());
    s.rewrite(&mut headers, "T");
    assert_eq!(headers.get("X-Both").unwrap(), "new");
}

#[test]
fn rewrite_skips_invalid_names_without_panicking() {
    // A space is illegal in a header name; the entry is silently skipped and
    // a valid sibling still lands.
    let s = stage(&[("Bad Name", "$literal:x"), ("X-Good", "$literal:y")], &[]);
    let mut headers = HeaderMap::new();
    s.rewrite(&mut headers, "T");
    assert!(headers.get("X-Good").is_some());
    assert_eq!(headers.len(), 1);
}

#[test]
fn rewrite_skips_invalid_values() {
    let s = stage(&[("X-Bad", "a\nb"), ("X-Tab", "a\tb"), ("X-Uni", "é")], &["("]);
    let mut headers = HeaderMap::new();
    assert!(s.rewrite(&mut headers, "T"));
    assert!(headers.get("x-bad").is_none());
    assert_eq!(headers.get("x-tab").unwrap().as_bytes(), b"a\tb");
    assert_eq!(headers.get("x-uni").unwrap().as_bytes(), "é".as_bytes());
}

fn numbered(n: usize) -> HeaderMap {
    let mut headers = HeaderMap::new();
    for i in 0..n {
        let name: hyper::header::HeaderName = format!("x-{i}").parse().unwrap();
        let _ = headers.try_insert(name, HeaderValue::from_static("v"));
    }
    headers
}

#[test]
fn many_headers_are_transformed_and_forwarded() {
    let mut headers = numbered(7000);
    assert_eq!(headers.keys_len(), 7000);
    let s = stage(&[("X-New", "v")], &["x-0"]);
    assert!(s.rewrite(&mut headers, "T"));
    assert!(headers.get("x-0").is_none());
    assert_eq!(headers.get("x-new").unwrap(), "v");
    assert!(forward_fields(&mut headers, "h"));
    assert_eq!(headers.get("host").unwrap(), "h");
    let rt = ResponseTransform {
        headers: Some(HeaderTransform { add: map(&[("X-More", "v")]), remove: vec!["x-1".to_string()] }),
        body: Some(ResponseBodyTransform { envelope: Some(yaml("$body")) }),
    };
    assert_eq!(apply(&mut headers, b"1", &rt, "T", "/r").unwrap(), b"1");
    assert!(headers.get("x-1").is_none());
    assert_eq!(headers.get("x-more").unwrap(), "v");
    assert_eq!(headers.get("content-type").unwrap(), "application/json");
}

#[test]
fn a_full_map_skips_additions_only() {
    // A header map holds at most this many names.
    let mut headers = numbered(40_000);
    assert_eq!(headers.keys_len(), 24_576);
    let s = stage(&[("X-New-1", "v"), ("X-New-2", "v")], &["x-0"]);
    assert!(!s.rewrite(&mut headers, "T"));
    assert!(headers.get("x-0").is_none());
    assert!(headers.get("x-new-2").is_none());

    let mut headers = numbered(40_000);
    assert!(!forward_fields(&mut headers, "h"));
    assert!(headers.get("host").is_none());
    let rt = ResponseTransform {
        headers: Some(HeaderTransform { add: map(&[]), remove: vec!["x-1".to_string()] }),
        body: None,
    };
    assert!(apply(&mut headers, b"", &rt, "T", "/r").is_none());
    assert!(headers.get("x-1").is_none());
    assert_eq!(headers.keys_len(), 24_575);
}

// ── forwarding ───────────────────────────────────────────────────────────────

#[test]
fn host_header_is_rewritten_to_the_upstream_authority() {
    let mut headers = HeaderMap::new();
    headers.insert("host", "gateway:8080".parse().unwrap());
    headers.insert("content-length", "12".parse().unwrap());
    headers.insert("x-keep", "1".parse().unwrap());
    headers.append("x-keep", "2".parse().unwrap());
    for name in [
        "connection",
        "keep-alive",
        "proxy-connection",
        "proxy-authenticate",
        "proxy-authorization",
        "te",
        "trailer",
        "transfer-encoding",
        "upgrade",
    ] {
        assert!(is_hop_by_hop(name));
        headers.insert(
            hyper::header::HeaderName::from_static(name),
            "x".parse().unwrap(),
        );
    }
    assert!(!is_hop_by_hop("host"));
    let mut relayed = headers.clone();
    forward_fields(&mut headers, "upstream:3001");
    assert_eq!(headers.get("host").unwrap(), "upstream:3001");
    assert_eq!(headers.get_all("x-keep").iter().count(), 2);
    assert_eq!(headers.keys_len(), 2);
    strip_hop_by_hop(&mut relayed);
    assert_eq!(relayed.keys_len(), 3);
    assert_eq!(relayed.get("host").unwrap(), "gateway:8080");
}

// ── body mapping ─────────────────────────────────────────────────────────────

#[test]
fn body_mapping_matches_spec_example() {
    let incoming = br#"{"userId":"u1","userName":"Ada","extra":9}"#;
    let mapping = map(&[
        ("user.id", "userId"),
        ("user.name", "userName"),
        ("meta.source", "$literal:gateway"),
        ("meta.timestamp", "$request_time"),
    ]);
    let out = apply_body_mapping(incoming, &mapping, "2021-01-01T00:00:00Z")
        .expect("JSON body should remap");
    let got: Value = serde_json::from_slice(&out).unwrap();
    assert_eq!(
        got,
        parse(
            r#"{
                "user": {"id": "u1", "name": "Ada"},
                "meta": {"source": "gateway", "timestamp": "2021-01-01T00:00:00Z"}
            }"#
        )
    );
    // `extra` was not mapped, so it does not survive.
    assert!(got.get("extra").is_none());
}

#[test]
fn body_mapping_preserves_numeric_type() {
    let out = apply_body_mapping(br#"{"n":7}"#, &map(&[("x", "n")]), "T").unwrap();
    let got: Value = serde_json::from_slice(&out).unwrap();
    assert_eq!(got, parse(r#"{"x": 7}"#));
    // Specifically a JSON number, not the string "7".
    assert!(got.get("x").unwrap().is_number());
}

#[test]
fn body_mapping_passes_through_non_json() {
    assert!(apply_body_mapping(b"not json", &map(&[("x", "n")]), "T").is_none());
}

#[test]
fn body_mapping_empty_mapping_is_noop() {
    assert!(apply_body_mapping(br#"{"a":1}"#, &StringMap::new(), "T").is_none());
}

#[test]
fn body_mapping_skips_missing_source() {
    // `nope` is absent from the incoming body → its dest is omitted entirely.
    let out = apply_body_mapping(
        br#"{"present":1}"#,
        &map(&[("kept", "present"), ("dropped", "nope")]),
        "T",
    )
    .unwrap();
    let got: Value = serde_json::from_slice(&out).unwrap();
    assert_eq!(got, parse(r#"{"kept": 1}"#));
    assert!(got.get("dropped").is_none());
}

#[test]
fn mappings_are_applied_in_key_order() {
    // "a" comes before "a.b", whichever was written first.
    let m = map(&[("a.b", "$literal:inner"), ("a", "$literal:outer")]);
    assert_eq!(m.len(), 2);
    assert_eq!(m.key(0), "a");
    assert_eq!(
        map_body(&Value::Null, &m, "T"),
        parse(r#"{"a": {"b": "inner"}}"#)
    );
    let mut twice = map(&[("k", "1"), ("k", "2")]);
    assert_eq!((twice.len(), twice.value(0)), (1, "2"));
    twice.insert("a".to_string(), "0".to_string());
    twice.insert("b".to_string(), "x".to_string());
    assert_eq!((twice.key(0), twice.key(1), twice.key(2)), ("a", "b", "k"));
}

fn plain_route() -> Route {
    Route {
        path: "/api/legacy".to_string(),
        methods: vec!["GET".to_string()],
        strip_prefix: false,
        upstream: Upstream {
            url: Some("http://x".to_string()),
            targets: vec![],
            balance: None,
            timeout: None,
            health_check: None,
        },
        timeout: None,
        retry: None,
        rate_limit: None,
        auth: None,
        circuit_breaker: None,
        request_transform: None,
        response_transform: None,
    }
}

#[test]
fn request_body_mapping() {
    let mut route = plain_route();
    assert!(map_request_body(&route, br#"{"n":1}"#, "T").is_none());
    route.request_transform = Some(RequestTransform {
        headers: None,
        body: Some(RequestBodyTransform { mapping: map(&[("m", "n")]) }),
    });
    assert_eq!(map_request_body(&route, br#"{"n":1}"#, "T").unwrap(), br#"{"m":1}"#);
    assert!(map_request_body(&route, b"plain", "T").is_none());
    route.request_transform = Some(RequestTransform {
        headers: None,
        body: Some(RequestBodyTransform {
            mapping: map(&[
                ("user.id", "userId"),
                ("user.name", "userName"),
                ("meta.source", "$literal:gateway"),
                ("meta.timestamp", "$request_time"),
            ]),
        }),
    });
    let body = br#"{"userId":"u1","userName":"Ada","extra":9}"#;
    let out = map_request_body(&route, body, "2021-01-01T00:00:00Z").unwrap();
    let v: Value = serde_json::from_slice(&out).unwrap();
    assert_eq!(v["user"]["id"], "u1");
    assert_eq!(v["user"]["name"], "Ada");
    assert_eq!(v["meta"]["source"], "gateway");
    let ts = v["meta"]["timestamp"].as_str().expect("meta.timestamp is a string");
    assert_eq!(ts, "2021-01-01T00:00:00Z");
    assert!(v.get("extra").is_none(), "unmapped `extra` dropped");
}

// ── envelopes ────────────────────────────────────────────────────────────────

#[test]
fn substitute_builds_spec_envelope() {
    let template = yaml(
        r#"
data: "$body"
gateway_metadata:
  served_at: "$response_time"
  route: "$route_path"
"#,
    );
    let body = parse(r#"{"ok": true}"#);
    let out = substitute(&template, &body, "2021-01-01T00:00:00Z", "/api/legacy");
    assert_eq!(
        out,
        parse(
            r#"{
                "data": {"ok": true},
                "gateway_metadata": {
                    "served_at": "2021-01-01T00:00:00Z",
                    "route": "/api/legacy"
                }
            }"#
        )
    );
}

#[test]
fn substitute_embeds_non_json_body_as_string() {
    let template = yaml(r#"data: "$body""#);
    let body = Value::String("plain-text".into());
    let out = substitute(&template, &body, "T", "/r");
    assert_eq!(out, parse(r#"{"data": "plain-text"}"#));
}

#[test]
fn substitute_resolves_literal() {
    let template = yaml(r#"marker: "$literal:$response_time""#);
    let out = substitute(&template, &Value::Null, "T", "/r");
    assert_eq!(out, parse(r#"{"marker": "$response_time"}"#));
}

#[test]
fn substitute_maps_scalars_and_sequences() {
    let template = yaml(
        r#"
flag: true
count: 3
ratio: 1.5
items:
  - "$route_path"
  - "$literal:x"
"#,
    );
    let out = substitute(&template, &Value::Null, "T", "/api");
    assert_eq!(
        out,
        parse(r#"{"flag": true, "count": 3, "ratio": 1.5, "items": ["/api", "x"]}"#)
    );
}

#[test]
fn substitute_degrades_what_json_cannot_hold() {
    let template = yaml(
        r#"
inf: .inf
nan: .nan
neg: -7
big: 18446744073709551615
none: ~
tagged: !thing x
plain: text
"#,
    );
    let out = substitute(&template, &Value::Null, "T", "/r");
    assert_eq!(
        out,
        parse(
            r#"{"inf": null, "nan": null, "neg": -7, "big": 18446744073709551615,
                "none": null, "tagged": null, "plain": "text"}"#
        )
    );
}

#[test]
fn substitute_shows_keys_as_text() {
    let template = yaml("1: a\ntrue: b\n1.5: c\n-2: d\n!t tagged: e\n[1]: f\n");
    let out = substitute(&template, &Value::Null, "T", "/r");
    assert_eq!(
        out,
        parse(r#"{"1": "a", "true": "b", "1.5": "c", "-2": "d", "tagged": "e", "": "f"}"#)
    );
}

#[test]
fn body_values() {
    assert_eq!(body_value(b""), Value::String(String::new()));
    assert_eq!(body_value(b"[1,2]"), parse("[1,2]"));
    assert_eq!(body_value(b"plain-text"), Value::String("plain-text".into()));
    assert_eq!(
        body_value(b"a\xffb"),
        Value::String("a\u{fffd}b".into())
    );
}

#[test]
fn apply_envelopes_upstream_body() {
    let rt = ResponseTransform {
        headers: None,
        body: Some(ResponseBodyTransform {
            envelope: Some(yaml(
                r#"
data: "$body"
gateway_metadata:
  route: "$route_path"
"#,
            )),
        }),
    };
    let mut headers = HeaderMap::new();
    // A stale Content-Length that no longer matches after enveloping.
    headers.insert(hyper::header::CONTENT_LENGTH, "13".parse().unwrap());
    let out = apply(&mut headers, br#"{"ok":true}"#, &rt, "T", "/api/legacy").unwrap();
    assert_eq!(
        headers.get(hyper::header::CONTENT_TYPE).unwrap(),
        "application/json"
    );
    assert!(headers.get(hyper::header::CONTENT_LENGTH).is_none());
    let value: Value = serde_json::from_slice(&out).unwrap();
    assert_eq!(
        value,
        parse(r#"{"data": {"ok": true}, "gateway_metadata": {"route": "/api/legacy"}}"#)
    );
}

#[test]
fn apply_header_only_preserves_body() {
    let rt = ResponseTransform {
        headers: Some(HeaderTransform {
            add: map(&[("X-Served-By", "$literal:gatewaykit")]),
            remove: vec!["X-Internal".to_string()],
        }),
        body: None,
    };
    let mut headers = HeaderMap::new();
    headers.insert("X-Internal", "secret".parse().unwrap());
    let out = apply(&mut headers, b"untouched-body", &rt, "T", "/api/x");
    assert!(out.is_none(), "the body is left alone");
    assert_eq!(headers.get("X-Served-By").unwrap(), "gatewaykit");
    assert!(headers.get("X-Internal").is_none());
}

#[test]
fn only_retries_and_mappings_buffer_the_request_body() {
    let mut route = plain_route();
    assert!(!buffers_body(&route));
    route.request_transform = Some(RequestTransform {
        headers: None,
        body: Some(RequestBodyTransform { mapping: map(&[]) }),
    });
    assert!(!buffers_body(&route));
    route.request_transform = Some(RequestTransform {
        headers: None,
        body: Some(RequestBodyTransform { mapping: map(&[("a", "b")]) }),
    });
    assert!(buffers_body(&route));
    let mut route = plain_route();
    route.retry = Some(Retry {
        attempts: 1,
        backoff: Backoff::Fixed,
        initial_delay: gatewaykit::clock::Duration::from_secs(1),
        on: vec![],
    });
    assert!(buffers_body(&route));
}

#[test]
fn writing_beside_a_path_leaves_it() {
    let mut v = parse(r#"{"a":{"b":1,"c":2}}"#);
    json_set(&mut v, "a.b", Value::from(7));
    assert_eq!(json_get(&v, "a.c"), Some(&Value::from(2)));
    let mut v = Value::from(5);
    json_set(&mut v, "a.b", Value::from(7));
    assert_eq!(json_get(&v, "a.c"), None);
}

#[test]
fn only_an_envelope_needs_the_body() {
    let mut route = plain_route();
    assert!(!needs_body(&route));
    route.response_transform = Some(ResponseTransform {
        headers: None,
        body: Some(ResponseBodyTransform { envelope: None }),
    });
    assert!(!needs_body(&route));
    route.response_transform = Some(ResponseTransform {
        headers: None,
        body: Some(ResponseBodyTransform { envelope: Some(yaml("$body")) }),
    });
    assert!(needs_body(&route));
}

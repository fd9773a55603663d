//! Errors that end a request, and the replies the gateway makes itself.
//!
//! Every failure maps to an HTTP status and a small JSON body.

use vstd::prelude::*;

use crate::headers;
use crate::text;

verus! {

/// A response the gateway makes itself.
pub struct Reply {
    pub status: u16,
    /// Header fields, names in lower case.
    pub headers: Vec<(String, String)>,
    pub body: String,
}

/// What a [`Reply`] holds.
#[verifier::ext_equal]
pub struct ReplyView {
    pub status: u16,
    pub headers: Seq<(Seq<char>, Seq<char>)>,
    pub body: Seq<char>,
}

impl View for Reply {
    type V = ReplyView;

    open spec fn view(&self) -> ReplyView {
        ReplyView {
            status: self.status,
            headers: self.headers@.map_values(|h: (String, String)| (h.0@, h.1@)),
            body: self.body@,
        }
    }
}

/// A JSON reply, with one more header if there is one.
pub open spec fn json_reply(
    status: u16,
    body: Seq<char>,
    extra: Option<(Seq<char>, Seq<char>)>,
) -> ReplyView {
    let content_type = ("content-type"@, "application/json"@);
    ReplyView {
        status,
        headers: match extra {
            Some(h) => seq![content_type, h],
            None => seq![content_type],
        },
        body,
    }
}

impl Reply {
    /// A JSON reply.
    pub fn json(status: u16, body: String) -> (r: Reply)
        ensures
            r@ == json_reply(status, body@, None),
    {
        let mut headers: Vec<(String, String)> = Vec::new();
        headers.push(("content-type".to_string(), "application/json".to_string()));
        let r = Reply { status, headers, body };
        assert(r@.headers =~= json_reply(status, body@, None).headers);
        r
    }

    /// A JSON reply with one more header.
    pub fn json_with(status: u16, body: String, name: &str, value: String) -> (r: Reply)
        ensures
            r@ == json_reply(status, body@, Some((name@, value@))),
    {
        let mut headers: Vec<(String, String)> = Vec::new();
        headers.push(("content-type".to_string(), "application/json".to_string()));
        headers.push((name.to_string(), value));
        let r = Reply { status, headers, body };
        assert(r@.headers =~= json_reply(status, body@, Some((name@, value@))).headers);
        r
    }
}

/// Errors that end a request with a particular status.
pub enum GatewayError {
    NotFound,
    /// `allow` lists the methods that are allowed.
    MethodNotAllowed { allow: String },
    BadGateway(String),
    /// Over the configured limit. `retry_after` is whole seconds until there is
    /// room.
    RateLimited { retry_after: u64 },
    /// The upstream did not respond in time.
    GatewayTimeout,
    /// Missing or invalid credential.
    Unauthorized,
    /// The target's breaker is open, so the upstream was not contacted.
    CircuitOpen { retry_after: u64 },
    /// Every target of the route is unhealthy.
    AllTargetsUnhealthy,
    /// The request body is larger than the gateway buffers.
    PayloadTooLarge,
}

/// What a [`GatewayError`] holds.
#[verifier::ext_equal]
pub enum ErrorView {
    NotFound,
    MethodNotAllowed { allow: Seq<char> },
    BadGateway(Seq<char>),
    RateLimited { retry_after: u64 },
    GatewayTimeout,
    Unauthorized,
    CircuitOpen { retry_after: u64 },
    AllTargetsUnhealthy,
    PayloadTooLarge,
}

impl View for GatewayError {
    type V = ErrorView;

    open spec fn view(&self) -> ErrorView {
        match self {
            GatewayError::NotFound => ErrorView::NotFound,
            GatewayError::MethodNotAllowed { allow } => ErrorView::MethodNotAllowed {
                allow: allow@,
            },
            GatewayError::BadGateway(why) => ErrorView::BadGateway(why@),
            GatewayError::RateLimited { retry_after } => ErrorView::RateLimited {
                retry_after: *retry_after,
            },
            GatewayError::GatewayTimeout => ErrorView::GatewayTimeout,
            GatewayError::Unauthorized => ErrorView::Unauthorized,
            GatewayError::CircuitOpen { retry_after } => ErrorView::CircuitOpen {
                retry_after: *retry_after,
            },
            GatewayError::AllTargetsUnhealthy => ErrorView::AllTargetsUnhealthy,
            GatewayError::PayloadTooLarge => ErrorView::PayloadTooLarge,
        }
    }
}

impl ErrorView {
    /// The HTTP status of an error.
    pub open spec fn status(self) -> u16 {
        match self {
            ErrorView::NotFound => 404,
            ErrorView::MethodNotAllowed { .. } => 405,
            ErrorView::BadGateway(_) => 502,
            ErrorView::RateLimited { .. } => 429,
            ErrorView::GatewayTimeout => 504,
            ErrorView::Unauthorized => 401,
            ErrorView::CircuitOpen { .. } => 503,
            ErrorView::AllTargetsUnhealthy => 503,
            ErrorView::PayloadTooLarge => 413,
        }
    }

    /// The stable machine-readable code clients see.
    pub open spec fn code(self) -> Seq<char> {
        match self {
            ErrorView::NotFound => "not_found"@,
            ErrorView::MethodNotAllowed { .. } => "method_not_allowed"@,
            ErrorView::BadGateway(_) => "bad_gateway"@,
            ErrorView::RateLimited { .. } => "rate_limited"@,
            ErrorView::GatewayTimeout => "gateway_timeout"@,
            ErrorView::Unauthorized => "unauthorized"@,
            ErrorView::CircuitOpen { .. } => "service_unavailable"@,
            ErrorView::AllTargetsUnhealthy => "service_unavailable"@,
            ErrorView::PayloadTooLarge => "payload_too_large"@,
        }
    }

    /// The reply body: the code, and the wait with an open circuit.
    pub open spec fn body(self) -> Seq<char> {
        let head = "{\"error\":\""@ + self.code();
        match self {
            ErrorView::CircuitOpen { retry_after } => head + "\",\"retry_after\":"@ + text::decimal(
                retry_after as nat,
            ) + "}"@,
            _ => head + "\"}"@,
        }
    }

    /// The header an error's reply has besides its content type: the allowed
    /// methods, unless they cannot stand in a header, or the wait.
    pub open spec fn extra_header(self) -> Option<(Seq<char>, Seq<char>)> {
        match self {
            ErrorView::MethodNotAllowed { allow } => if headers::is_value(allow) {
                Some(("allow"@, allow))
            } else {
                None
            },
            ErrorView::RateLimited { retry_after } => Some(
                ("retry-after"@, text::decimal(retry_after as nat)),
            ),
            _ => None,
        }
    }

    /// The reply to an error. It never says why an upstream failed.
    pub open spec fn reply(self) -> ReplyView {
        json_reply(self.status(), self.body(), self.extra_header())
    }

    /// The text of an error, for logs.
    pub open spec fn text(self) -> Seq<char> {
        match self {
            ErrorView::NotFound => "no route matches the request path"@,
            ErrorView::MethodNotAllowed { allow } => "method not allowed (allowed: "@ + allow
                + ")"@,
            ErrorView::BadGateway(why) => "bad gateway: "@ + why,
            ErrorView::RateLimited { retry_after } => "rate limit exceeded (retry after "@
                + text::decimal(retry_after as nat) + "s)"@,
            ErrorView::GatewayTimeout => "upstream timed out"@,
            ErrorView::Unauthorized => "unauthorized"@,
            ErrorView::CircuitOpen { retry_after } => "circuit open (retry after "@ + text::decimal(
                retry_after as nat,
            ) + "s)"@,
            ErrorView::AllTargetsUnhealthy => "all upstream targets are unhealthy"@,
            ErrorView::PayloadTooLarge => "request body too large"@,
        }
    }
}

impl GatewayError {
    /// A 405 that carries the allowed methods.
    pub fn method_not_allowed(methods: &[String]) -> (e: GatewayError)
        ensures
            e@ == (ErrorView::MethodNotAllowed {
                allow: text::joined(text::views(methods@), ", "@),
            }),
    {
        GatewayError::MethodNotAllowed { allow: text::join(methods, ", ") }
    }

    /// The HTTP status.
    pub fn status(&self) -> (s: u16)
        ensures
            s == self@.status(),
    {
        match self {
            GatewayError::NotFound => 404,
            GatewayError::MethodNotAllowed { .. } => 405,
            GatewayError::BadGateway(_) => 502,
            GatewayError::RateLimited { .. } => 429,
            GatewayError::GatewayTimeout => 504,
            GatewayError::Unauthorized => 401,
            GatewayError::CircuitOpen { .. } => 503,
            GatewayError::AllTargetsUnhealthy => 503,
            GatewayError::PayloadTooLarge => 413,
        }
    }

    /// The machine-readable code.
    pub fn code(&self) -> (s: &'static str)
        ensures
            s@ == self@.code(),
    {
        match self {
            GatewayError::NotFound => "not_found",
            GatewayError::MethodNotAllowed { .. } => "method_not_allowed",
            GatewayError::BadGateway(_) => "bad_gateway",
            GatewayError::RateLimited { .. } => "rate_limited",
            GatewayError::GatewayTimeout => "gateway_timeout",
            GatewayError::Unauthorized => "unauthorized",
            GatewayError::CircuitOpen { .. } => "service_unavailable",
            GatewayError::AllTargetsUnhealthy => "service_unavailable",
            GatewayError::PayloadTooLarge => "payload_too_large",
        }
    }

    /// The reply to this error. Dynamic text, such as why an upstream could not be
    /// reached, stays out of it.
    pub fn into_response(self) -> (r: Reply)
        ensures
            r@ == self@.reply(),
    {
        let status: u16 = self.status();
        let mut body = "{\"error\":\"".to_string();
        body.append(self.code());
        match &self {
            GatewayError::CircuitOpen { retry_after } => {
                body.append("\",\"retry_after\":");
                body.append(text::decimal_str(*retry_after).as_str());
                body.append("}");
            },
            _ => {
                body.append("\"}");
            },
        }
        match self {
            GatewayError::MethodNotAllowed { allow } => {
                if headers::parse_value(allow.as_str()).is_some() {
                    Reply::json_with(status, body, "allow", allow)
                } else {
                    Reply::json(status, body)
                }
            },
            GatewayError::RateLimited { retry_after } => {
                Reply::json_with(status, body, "retry-after", text::decimal_str(retry_after))
            },
            _ => Reply::json(status, body),
        }
    }

    /// The text of this error, for logs.
    pub fn message(&self) -> (s: String)
        ensures
            s@ == self@.text(),
    {
        match self {
            GatewayError::NotFound => "no route matches the request path".to_string(),
            GatewayError::MethodNotAllowed { allow } => {
                let mut s = "method not allowed (allowed: ".to_string();
                s.append(allow.as_str());
                s.append(")");
                s
            },
            GatewayError::BadGateway(why) => {
                let mut s = "bad gateway: ".to_string();
                s.append(why.as_str());
                s
            },
            GatewayError::RateLimited { retry_after } => {
                let mut s = "rate limit exceeded (retry after ".to_string();
                s.append(text::decimal_str(*retry_after).as_str());
                s.append("s)");
                s
            },
            GatewayError::GatewayTimeout => "upstream timed out".to_string(),
            GatewayError::Unauthorized => "unauthorized".to_string(),
            GatewayError::CircuitOpen { retry_after } => {
                let mut s = "circuit open (retry after ".to_string();
                s.append(text::decimal_str(*retry_after).as_str());
                s.append("s)");
                s
            },
            GatewayError::AllTargetsUnhealthy => "all upstream targets are unhealthy".to_string(),
            GatewayError::PayloadTooLarge => "request body too large".to_string(),
        }
    }
}

/// Law: every error's reply, as the client sees it: its status and its whole body.
pub proof fn law_error_bodies(allow: Seq<char>, why: Seq<char>, retry_after: u64)
    ensures
        ErrorView::NotFound.reply().status == 404 && ErrorView::NotFound.reply().body
            == "{\"error\":\"not_found\"}"@,
        (ErrorView::MethodNotAllowed { allow }).reply().status == 405,
        (ErrorView::MethodNotAllowed { allow }).reply().body
            == "{\"error\":\"method_not_allowed\"}"@,
        ErrorView::BadGateway(why).reply().status == 502,
        ErrorView::BadGateway(why).reply().body == "{\"error\":\"bad_gateway\"}"@,
        (ErrorView::RateLimited { retry_after }).reply().status == 429,
        (ErrorView::RateLimited { retry_after }).reply().body == "{\"error\":\"rate_limited\"}"@,
        ErrorView::GatewayTimeout.reply().status == 504 && ErrorView::GatewayTimeout.reply().body
            == "{\"error\":\"gateway_timeout\"}"@,
        ErrorView::Unauthorized.reply().status == 401 && ErrorView::Unauthorized.reply().body
            == "{\"error\":\"unauthorized\"}"@,
        (ErrorView::CircuitOpen { retry_after }).reply().status == 503,
        (ErrorView::CircuitOpen { retry_after }).reply().body
            == "{\"error\":\"service_unavailable\",\"retry_after\":"@ + text::decimal(
            retry_after as nat,
        ) + "}"@,
        ErrorView::AllTargetsUnhealthy.reply().status == 503
            && ErrorView::AllTargetsUnhealthy.reply().body
            == "{\"error\":\"service_unavailable\"}"@,
        ErrorView::PayloadTooLarge.reply().status == 413 && ErrorView::PayloadTooLarge.reply().body
            == "{\"error\":\"payload_too_large\"}"@,
{
    reveal_strlit("{\"error\":\"");
    reveal_strlit("\"}");
    reveal_strlit("not_found");
    reveal_strlit("{\"error\":\"not_found\"}");
    reveal_strlit("method_not_allowed");
    reveal_strlit("{\"error\":\"method_not_allowed\"}");
    reveal_strlit("bad_gateway");
    reveal_strlit("{\"error\":\"bad_gateway\"}");
    reveal_strlit("rate_limited");
    reveal_strlit("{\"error\":\"rate_limited\"}");
    reveal_strlit("gateway_timeout");
    reveal_strlit("{\"error\":\"gateway_timeout\"}");
    reveal_strlit("unauthorized");
    reveal_strlit("{\"error\":\"unauthorized\"}");
    reveal_strlit("service_unavailable");
    reveal_strlit("{\"error\":\"service_unavailable\"}");
    reveal_strlit("payload_too_large");
    reveal_strlit("{\"error\":\"payload_too_large\"}");
    reveal_strlit("\",\"retry_after\":");
    reveal_strlit("{\"error\":\"service_unavailable\",\"retry_after\":");
    let (head, tail) = ("{\"error\":\""@, "\"}"@);
    assert(head + "not_found"@ + tail =~= "{\"error\":\"not_found\"}"@);
    assert(head + "method_not_allowed"@ + tail =~= "{\"error\":\"method_not_allowed\"}"@);
    assert(head + "bad_gateway"@ + tail =~= "{\"error\":\"bad_gateway\"}"@);
    assert(head + "rate_limited"@ + tail =~= "{\"error\":\"rate_limited\"}"@);
    assert(head + "gateway_timeout"@ + tail =~= "{\"error\":\"gateway_timeout\"}"@);
    assert(head + "unauthorized"@ + tail =~= "{\"error\":\"unauthorized\"}"@);
    assert(head + "service_unavailable"@ + tail =~= "{\"error\":\"service_unavailable\"}"@);
    assert(head + "payload_too_large"@ + tail =~= "{\"error\":\"payload_too_large\"}"@);
    assert(head + "service_unavailable"@ + "\",\"retry_after\":"@
        =~= "{\"error\":\"service_unavailable\",\"retry_after\":"@);
}

/// Law: what a reply's headers say. Every error is answered in JSON. A 405 lists the
/// allowed methods, if they can stand in a header, and a 429 says when to come back;
/// no other reply has another header.
pub proof fn law_error_headers(e: ErrorView, allow: Seq<char>, retry_after: u64)
    ensures
        e.reply().headers.len() >= 1 && e.reply().headers[0] == ("content-type"@,
            "application/json"@),
        headers::is_value(allow) ==> (ErrorView::MethodNotAllowed { allow }).reply().headers =~= seq![
            ("content-type"@, "application/json"@),
            ("allow"@, allow),
        ],
        (ErrorView::RateLimited { retry_after }).reply().headers =~= seq![
            ("content-type"@, "application/json"@),
            ("retry-after"@, text::decimal(retry_after as nat)),
        ],
        e !is MethodNotAllowed && e !is RateLimited ==> e.reply().headers.len() == 1,
{
}

/// Law: a reply never shows the client why an upstream failed: two `BadGateway`
/// errors of any text have the same reply.
pub proof fn law_reason_is_not_leaked(a: Seq<char>, b: Seq<char>)
    ensures
        ErrorView::BadGateway(a).reply() == ErrorView::BadGateway(b).reply(),
{
}

/// Law: what a log says of an error names what the error is about.
pub proof fn law_error_texts(allow: Seq<char>, why: Seq<char>, retry_after: u64)
    ensures
        ErrorView::NotFound.text() == "no route matches the request path"@,
        (ErrorView::MethodNotAllowed { allow }).text() == "method not allowed (allowed: "@ + allow
            + ")"@,
        ErrorView::BadGateway(why).text() == "bad gateway: "@ + why,
        (ErrorView::RateLimited { retry_after }).text() == "rate limit exceeded (retry after "@
            + text::decimal(retry_after as nat) + "s)"@,
        ErrorView::GatewayTimeout.text() == "upstream timed out"@,
        ErrorView::Unauthorized.text() == "unauthorized"@,
        (ErrorView::CircuitOpen { retry_after }).text() == "circuit open (retry after "@
            + text::decimal(retry_after as nat) + "s)"@,
        ErrorView::AllTargetsUnhealthy.text() == "all upstream targets are unhealthy"@,
        ErrorView::PayloadTooLarge.text() == "request body too large"@,
{
}

} // verus!

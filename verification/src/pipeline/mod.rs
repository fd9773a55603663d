//! The request pipeline: an ordered chain of policy stages per route.
//!
//! The health endpoint and routing come first: nothing in a configuration can
//! shadow the former, and the latter selects the chain. The chain of a route is
//! assembled from its configuration in this order:
//!
//!   method filter, authentication, rate limit, request transform
//!
//! and any stage may end the request with a reply before anything is sent
//! upstream. On the way back a genuine upstream response goes through the route's
//! response chain.

use vstd::prelude::*;
use vstd::utf8::encode_utf8;

use crate::clock::Instant;
use crate::config::{Config, Route};
use crate::error::{json_reply, ErrorView, GatewayError, Reply, ReplyView};
use crate::headers::{
    end_to_end, fields, is_name, name_count, strip_hop_by_hop, Fields, MAX_NAMES,
};
use crate::health;
use crate::json::{encoded, parsed};
use crate::pipeline::auth::{authorized, AuthStage};
use crate::pipeline::method::{method_allowed, MethodStage};
use crate::pipeline::request_transform::{
    apply_body_mapping, mapped, rewrites_to, rewritten, RequestTransformStage,
};
use crate::pipeline::response_transform::{
    apply, envelope_of, headers_set, transformed, transformed_body, transforms_to,
    ResponseTransformStage,
};
use crate::rate_limit::{
    effective_rate_limit, limit_of, limiter_moved, met, IpAddr, RateLimitStage, RouteLimiter,
};
use crate::router::{prefix_of, route_matches, routed_to, tail_of, Match, Router};
use crate::text;
use crate::upstream::retry::tries;

pub mod auth;
pub mod method;
pub mod request_transform;
pub mod response_transform;
pub mod transform;

verus! {

/// What a stage decides: let the request go on, or answer it now.
pub enum Flow {
    Continue,
    ShortCircuit(Reply),
}

impl Flow {
    /// The reply, if the request is answered.
    pub open spec fn reply(self) -> Option<ReplyView> {
        match self {
            Flow::Continue => None,
            Flow::ShortCircuit(r) => Some(r@),
        }
    }
}

/// One step of a route's chain.
pub enum Stage {
    Method(MethodStage),
    Auth(AuthStage),
    RateLimit(RateLimitStage),
    RequestTransform(RequestTransformStage),
}

/// What the stages look at, and change, of a request.
pub struct RequestCtx {
    /// The route the request was matched to.
    pub route_index: usize,
    /// The path after the matched prefix.
    pub tail: String,
    /// The socket peer: what `per: ip` counts by.
    pub client_ip: IpAddr,
    pub method: String,
    pub headers: hyper::HeaderMap,
    /// The one timestamp of this request.
    pub request_time: String,
}

/// The error a stage answers a request with, if any.
pub open spec fn stage_error(
    stage: Stage,
    ctx: RequestCtx,
    limiter: Option<RouteLimiter>,
    now: Instant,
) -> Option<ErrorView> {
    match stage {
        Stage::Method(s) => if method_allowed(text::views(s.allow@), ctx.method@) {
            None
        } else {
            Some(
                ErrorView::MethodNotAllowed {
                    allow: text::joined(text::views(s.allow@), ", "@),
                },
            )
        },
        Stage::Auth(s) => if authorized(s.header@, text::views(s.keys@), fields(ctx.headers)) {
            None
        } else {
            Some(ErrorView::Unauthorized)
        },
        Stage::RateLimit(_) => limit_error(limiter, ctx.client_ip, now),
        Stage::RequestTransform(_) => None,
    }
}

/// The error of a client that is over a limit.
pub open spec fn limit_error(
    limiter: Option<RouteLimiter>,
    ip: IpAddr,
    now: Instant,
) -> Option<ErrorView> {
    match limiter {
        Some(l) => match l.policy.verdict(met(l.bucket(ip), now), now) {
            Ok(_) => None,
            Err(retry_after) => Some(ErrorView::RateLimited { retry_after }),
        },
        None => None,
    }
}

/// Whether `g` is what the headers may be after a stage.
pub open spec fn stage_fields(stage: Stage, ctx: RequestCtx, g: Fields) -> bool {
    match stage {
        Stage::RequestTransform(s) => {
            let f = fields(ctx.headers);
            &&& rewrites_to(f, text::views(s.remove@), s.add@, ctx.request_time@, g)
            &&& name_count(f) + s.add@.len() <= MAX_NAMES + 1 ==> g == rewritten(
                f,
                text::views(s.remove@),
                s.add@,
                ctx.request_time@,
            )
        },
        _ => g == fields(ctx.headers),
    }
}

/// Whether two contexts differ in their headers at most.
pub open spec fn same_but_headers(a: RequestCtx, b: RequestCtx) -> bool {
    &&& a.route_index == b.route_index
    &&& a.tail == b.tail
    &&& a.client_ip == b.client_ip
    &&& a.method == b.method
    &&& a.request_time == b.request_time
}

impl Stage {
    /// Run the stage. Only a rate limit moves the limiter, and only a transform
    /// changes the headers.
    pub fn apply(
        &self,
        ctx: &mut RequestCtx,
        limiter: &mut Option<RouteLimiter>,
        now: Instant,
    ) -> (flow: Flow)
        requires
            *old(limiter) is Some ==> (*old(limiter))->0.valid(),
        ensures
            flow.reply() == (match stage_error(*self, *old(ctx), *old(limiter), now) {
                Some(e) => Some(e.reply()),
                None => None,
            }),
            self !is RequestTransform ==> *final(ctx) == *old(ctx),
            same_but_headers(*final(ctx), *old(ctx)),
            stage_fields(*self, *old(ctx), fields(final(ctx).headers)),
            self !is RateLimit ==> *final(limiter) == *old(limiter),
            self is RateLimit ==> limiter_moved(
                *old(limiter),
                *final(limiter),
                old(ctx).client_ip,
                now,
            ),
    {
        match self {
            Stage::Method(s) => {
                if s.allows(ctx.method.as_str()) {
                    Flow::Continue
                } else {
                    Flow::ShortCircuit(
                        GatewayError::method_not_allowed(s.allow.as_slice()).into_response(),
                    )
                }
            },
            Stage::Auth(s) => {
                if s.authorizes(&ctx.headers) {
                    Flow::Continue
                } else {
                    Flow::ShortCircuit(GatewayError::Unauthorized.into_response())
                }
            },
            Stage::RateLimit(_) => {
                match limiter {
                    Some(l) => match l.check(now, ctx.client_ip) {
                        Ok(_) => Flow::Continue,
                        Err(retry_after) => Flow::ShortCircuit(
                            GatewayError::RateLimited { retry_after }.into_response(),
                        ),
                    },
                    None => Flow::Continue,
                }
            },
            Stage::RequestTransform(s) => {
                s.rewrite(&mut ctx.headers, ctx.request_time.as_str());
                Flow::Continue
            },
        }
    }
}

/// Whether a chain is in an order that can be run: at most one rate limit, and a
/// transform only at the end.
pub open spec fn ordered(stages: Seq<Stage>) -> bool {
    forall|i: int, j: int|
        0 <= i < j < stages.len() ==> #[trigger] stages[i] !is RequestTransform && !(stages[i]
            is RateLimit && #[trigger] stages[j] is RateLimit)
}

/// The error the stages from `k` on answer a request with, if any: that of the
/// first one that has one.
pub open spec fn first_error(
    stages: Seq<Stage>,
    ctx: RequestCtx,
    limiter: Option<RouteLimiter>,
    now: Instant,
    k: int,
) -> Option<ErrorView>
    decreases stages.len() - k,
{
    if k >= stages.len() {
        None
    } else {
        match stage_error(stages[k], ctx, limiter, now) {
            Some(e) => Some(e),
            None => first_error(stages, ctx, limiter, now, k + 1),
        }
    }
}

/// Whether a request gets as far as the rate limit of a chain.
pub open spec fn reaches_limit(
    stages: Seq<Stage>,
    ctx: RequestCtx,
    limiter: Option<RouteLimiter>,
    now: Instant,
) -> bool {
    exists|k: int|
        0 <= k < stages.len() && #[trigger] stages[k] is RateLimit && passes(
            stages,
            ctx,
            limiter,
            now,
            k,
        )
}

/// Whether the first `k` stages let a request go on.
pub open spec fn passes(
    stages: Seq<Stage>,
    ctx: RequestCtx,
    limiter: Option<RouteLimiter>,
    now: Instant,
    k: int,
) -> bool {
    forall|j: int| 0 <= j < k ==> stage_error(#[trigger] stages[j], ctx, limiter, now) is None
}

/// Whether `g` is what the headers may be after a chain that let the request go on.
pub open spec fn chain_fields(stages: Seq<Stage>, ctx: RequestCtx, g: Fields) -> bool {
    if stages.len() > 0 {
        stage_fields(stages.last(), ctx, g)
    } else {
        g == fields(ctx.headers)
    }
}

/// Run a route's chain. The first stage with an error answers the request; the
/// limiter counts the request only if every stage before the rate limit let it go
/// on.
pub fn run_stages(
    stages: &Vec<Stage>,
    ctx: &mut RequestCtx,
    limiter: &mut Option<RouteLimiter>,
    now: Instant,
) -> (flow: Flow)
    requires
        ordered(stages@),
        *old(limiter) is Some ==> (*old(limiter))->0.valid(),
    ensures
        flow.reply() == (match first_error(stages@, *old(ctx), *old(limiter), now, 0) {
            Some(e) => Some(e.reply()),
            None => None,
        }),
        same_but_headers(*final(ctx), *old(ctx)),
        if flow is Continue {
            chain_fields(stages@, *old(ctx), fields(final(ctx).headers))
        } else {
            fields(final(ctx).headers) == fields(old(ctx).headers)
        },
        if reaches_limit(stages@, *old(ctx), *old(limiter), now) {
            limiter_moved(*old(limiter), *final(limiter), old(ctx).client_ip, now)
        } else {
            *final(limiter) == *old(limiter)
        },
{
    let ghost start_ctx = *ctx;
    let ghost start_limiter = *limiter;
    let mut i: usize = 0;
    while i < stages.len()
        invariant
            i <= stages@.len(),
            start_ctx == *old(ctx),
            start_limiter == *old(limiter),
            ordered(stages@),
            start_limiter is Some ==> start_limiter->0.valid(),
            passes(stages@, start_ctx, start_limiter, now, i as int),
            first_error(stages@, start_ctx, start_limiter, now, 0) == first_error(
                stages@,
                start_ctx,
                start_limiter,
                now,
                i as int,
            ),
            i < stages@.len() ==> *ctx == start_ctx,
            same_but_headers(*ctx, start_ctx),
            i == stages@.len() ==> chain_fields(stages@, start_ctx, fields(ctx.headers)),
            if exists|k: int| 0 <= k < i && #[trigger] stages@[k] is RateLimit {
                limiter_moved(start_limiter, *limiter, start_ctx.client_ip, now)
            } else {
                *limiter == start_limiter
            },
        decreases stages@.len() - i,
    {
        let ghost at = stages@[i as int];
        proof {
            assert forall|k: int| 0 <= k < i implies #[trigger] stages@[k] !is RequestTransform && !(
            stages@[k] is RateLimit && at is RateLimit) by {
                assert(stages@[i as int] == at);
            }
            assert(stage_error(at, *ctx, *limiter, now) == stage_error(
                at,
                start_ctx,
                start_limiter,
                now,
            ));
        }
        let flow = stages[i].apply(ctx, limiter, now);
        match flow {
            Flow::ShortCircuit(r) => {
                proof {
                    assert(stage_error(at, start_ctx, start_limiter, now) is Some);
                    assert(*ctx == start_ctx);
                    assert forall|k: int|
                        0 <= k < stages@.len() && #[trigger] stages@[k] is RateLimit && passes(
                            stages@,
                            start_ctx,
                            start_limiter,
                            now,
                            k,
                        ) implies k <= i by {
                        if k > i {
                            assert(stage_error(stages@[i as int], start_ctx, start_limiter, now)
                                is None);
                        }
                    }
                    if at is RateLimit {
                        assert(stages@[i as int] is RateLimit && passes(
                            stages@,
                            start_ctx,
                            start_limiter,
                            now,
                            i as int,
                        ));
                    }
                    if exists|k: int| 0 <= k < i && #[trigger] stages@[k] is RateLimit {
                        let k = choose|k: int| 0 <= k < i && #[trigger] stages@[k] is RateLimit;
                        assert(passes(stages@, start_ctx, start_limiter, now, k));
                    }
                }
                return Flow::ShortCircuit(r);
            },
            Flow::Continue => {},
        }
        proof {
            assert(stage_error(at, start_ctx, start_limiter, now) is None);
            if i + 1 < stages@.len() {
                assert(stages@[i as int] !is RequestTransform && !(stages@[i as int] is RateLimit
                    && stages@[i + 1] is RateLimit));
            }
            if at is RateLimit {
                assert(stages@[i as int] is RateLimit);
            }
        }
        i += 1;
    }
    proof {
        if exists|k: int| 0 <= k < i && #[trigger] stages@[k] is RateLimit {
            let k = choose|k: int| 0 <= k < i && #[trigger] stages@[k] is RateLimit;
            assert(passes(stages@, start_ctx, start_limiter, now, k));
        }
    }
    Flow::Continue
}

/// Whether a transform of headers is configured for a route.
pub open spec fn rewrites_headers(route: Route) -> bool {
    route.request_transform is Some && route.request_transform->0.headers is Some
}

/// Whether the maps of a route's request transform are in order.
pub open spec fn transform_valid(route: Route) -> bool {
    rewrites_headers(route) ==> route.request_transform->0.headers->0.add.valid()
}

/// Whether `stages` is the chain of a route: the method filter, then a stage for
/// each of authentication, rate limit and header transform that is configured, in
/// this order.
pub open spec fn is_chain_of(route: Route, config: Config, stages: Seq<Stage>) -> bool {
    let auth = if route.auth is Some {
        1int
    } else {
        0
    };
    let limit = if limit_of(route, config) is Some {
        1int
    } else {
        0
    };
    let rewrite = if rewrites_headers(route) {
        1int
    } else {
        0
    };
    &&& stages.len() == 1 + auth + limit + rewrite
    &&& stages[0] matches Stage::Method(s) && text::views(s.allow@) == text::views(route.methods@)
    &&& route.auth is Some ==> (stages[1] matches Stage::Auth(s) && s.header@
        == route.auth->0.header@ && text::views(s.keys@) == text::views(route.auth->0.keys@))
    &&& limit_of(route, config) is Some ==> stages[1 + auth] is RateLimit
    &&& rewrites_headers(route) ==> (stages[1 + auth + limit] matches Stage::RequestTransform(s)
        && s.add@ == route.request_transform->0.headers->0.add@ && text::views(s.remove@)
        == text::views(route.request_transform->0.headers->0.remove@))
}

/// The chain of one route.
fn assemble_route(route: &Route, config: &Config) -> (stages: Vec<Stage>)
    requires
        transform_valid(*route),
    ensures
        is_chain_of(*route, *config, stages@),
        ordered(stages@),
{
    let mut stages: Vec<Stage> = Vec::new();
    stages.push(Stage::Method(MethodStage::new(route.methods.as_slice())));
    if let Some(a) = &route.auth {
        stages.push(Stage::Auth(AuthStage::new(a)));
    }
    if effective_rate_limit(route, config).is_some() {
        stages.push(Stage::RateLimit(RateLimitStage));
    }
    if let Some(rt) = &route.request_transform {
        if let Some(h) = &rt.headers {
            stages.push(Stage::RequestTransform(RequestTransformStage::new(h)));
        }
    }
    stages
}

/// Assemble the chain of every route, in the order of the configured routes.
pub fn assemble(config: &Config) -> (chains: Vec<Vec<Stage>>)
    requires
        forall|i: int|
            0 <= i < config.routes@.len() ==> transform_valid(#[trigger] config.routes@[i]),
    ensures
        chains@.len() == config.routes@.len(),
        forall|i: int|
            0 <= i < config.routes@.len() ==> is_chain_of(
                config.routes@[i],
                *config,
                (#[trigger] chains@[i])@,
            ) && ordered(chains@[i]@),
{
    let mut chains: Vec<Vec<Stage>> = Vec::new();
    let mut i: usize = 0;
    while i < config.routes.len()
        invariant
            i <= config.routes@.len(),
            chains@.len() == i,
            forall|j: int|
                0 <= j < config.routes@.len() ==> transform_valid(#[trigger] config.routes@[j]),
            forall|j: int|
                0 <= j < i ==> is_chain_of(config.routes@[j], *config, (#[trigger] chains@[j])@)
                    && ordered(chains@[j]@),
        decreases config.routes@.len() - i,
    {
        chains.push(assemble_route(&config.routes[i], config));
        i += 1;
    }
    chains
}

/// The error a route answers a request with before anything is sent upstream.
pub open spec fn admission(
    route: Route,
    config: Config,
    ctx: RequestCtx,
    limiter: Option<RouteLimiter>,
    now: Instant,
) -> Option<ErrorView> {
    if !method_allowed(text::views(route.methods@), ctx.method@) {
        Some(
            ErrorView::MethodNotAllowed {
                allow: text::joined(text::views(route.methods@), ", "@),
            },
        )
    } else if route.auth is Some && !authorized(
        route.auth->0.header@,
        text::views(route.auth->0.keys@),
        fields(ctx.headers),
    ) {
        Some(ErrorView::Unauthorized)
    } else if limit_of(route, config) is Some {
        limit_error(limiter, ctx.client_ip, now)
    } else {
        None
    }
}

/// Law: the pipeline's order. A route's chain answers with 405 before 401 before
/// 429, and lets everything else go on.
pub proof fn law_pipeline_order(
    route: Route,
    config: Config,
    stages: Seq<Stage>,
    ctx: RequestCtx,
    limiter: Option<RouteLimiter>,
    now: Instant,
)
    requires
        is_chain_of(route, config, stages),
    ensures
        first_error(stages, ctx, limiter, now, 0) == admission(route, config, ctx, limiter, now),
{
    reveal_with_fuel(first_error, 5);
}

/// Law: a body that is streamed is never remapped and is sent at most once, so
/// nothing is lost by not keeping it.
pub proof fn law_streamed_bodies_are_sent_once(
    route: Route,
    body: Seq<u8>,
    time: Seq<char>,
)
    requires
        !(route.retry is Some || maps_body(route)),
    ensures
        request_body(route, body, time) is None,
        tries(route.retry) == 1,
{
}

/// Law: authentication comes before rate limiting. A request that is refused for
/// its method or its credential never reaches the rate limit, so it uses up none of
/// anybody's budget.
pub proof fn law_refused_requests_are_not_counted(
    route: Route,
    config: Config,
    stages: Seq<Stage>,
    ctx: RequestCtx,
    limiter: Option<RouteLimiter>,
    now: Instant,
)
    requires
        is_chain_of(route, config, stages),
        admission(route, config, ctx, limiter, now) matches Some(e) && e !is RateLimited,
    ensures
        !reaches_limit(stages, ctx, limiter, now),
{
    assert forall|k: int| 0 <= k < stages.len() && #[trigger] stages[k] is RateLimit implies !passes(
        stages,
        ctx,
        limiter,
        now,
        k,
    ) by {
        assert(stage_error(stages[0], ctx, limiter, now) is Some || (route.auth is Some
            && stage_error(stages[1], ctx, limiter, now) is Some) || limit_error(
            limiter,
            ctx.client_ip,
            now,
        ) is Some);
    }
}

/// Where a request goes before any stage: to a reply, or to a route.
pub enum Dispatch {
    Reply(Reply),
    Route(Match),
}

/// Answer the health endpoint and find the route of any other path. The health
/// endpoint is asked first, so no route can shadow it; it takes `GET` only.
pub fn dispatch(
    router: &Router,
    method: &str,
    path: &str,
    start: Instant,
    now: Instant,
) -> (d: Dispatch)
    ensures
        path@ == "/health"@ ==> (d matches Dispatch::Reply(r) && r@ == health_reply(
            method@,
            start,
            now,
        )),
        path@ != "/health"@ ==> forall|routes: Seq<Route>| #[trigger]
            router.is_for(routes) ==> match d {
                Dispatch::Route(m) => routed_to(routes, path@, m.route_index as int) && tail_of(
                    prefix_of(routes, m.route_index as int),
                    path@,
                ) == Some(m.tail@),
                Dispatch::Reply(r) => r@ == ErrorView::NotFound.reply() && forall|i: int|
                    0 <= i < routes.len() ==> !#[trigger] route_matches(routes, i, path@),
            },
{
    if text::eq(path, "/health") {
        if text::eq(method, "GET") {
            return Dispatch::Reply(health::health_response(start, now));
        }
        let mut only: Vec<String> = Vec::new();
        only.push("GET".to_string());
        let e = GatewayError::method_not_allowed(only.as_slice());
        assert(text::views(only@) =~= seq!["GET"@]);
        return Dispatch::Reply(e.into_response());
    }
    match router.match_route(path) {
        Some(m) => Dispatch::Route(m),
        None => Dispatch::Reply(GatewayError::NotFound.into_response()),
    }
}

/// The reply of the health endpoint.
pub open spec fn health_reply(method: Seq<char>, start: Instant, now: Instant) -> ReplyView {
    if method == "GET"@ {
        json_reply(200, health::health_body(health::uptime(start, now)), None)
    } else {
        (ErrorView::MethodNotAllowed { allow: "GET"@ }).reply()
    }
}

/// One step of a route's response chain.
pub enum ResponseStage {
    ResponseTransform(ResponseTransformStage),
}

/// Whether `stages` is the response chain of a route.
pub open spec fn is_response_chain_of(route: Route, stages: Seq<ResponseStage>) -> bool {
    if route.response_transform is Some {
        stages == seq![ResponseStage::ResponseTransform(ResponseTransformStage)]
    } else {
        stages.len() == 0
    }
}

/// Assemble the response chain of every route, in the order of the configured
/// routes.
pub fn assemble_response(config: &Config) -> (chains: Vec<Vec<ResponseStage>>)
    ensures
        chains@.len() == config.routes@.len(),
        forall|i: int|
            0 <= i < config.routes@.len() ==> is_response_chain_of(
                config.routes@[i],
                (#[trigger] chains@[i])@,
            ),
{
    let mut chains: Vec<Vec<ResponseStage>> = Vec::new();
    let mut i: usize = 0;
    while i < config.routes.len()
        invariant
            i <= config.routes@.len(),
            chains@.len() == i,
            forall|j: int|
                0 <= j < i ==> is_response_chain_of(config.routes@[j], (#[trigger] chains@[j])@),
        decreases config.routes@.len() - i,
    {
        let mut stages: Vec<ResponseStage> = Vec::new();
        if config.routes[i].response_transform.is_some() {
            stages.push(ResponseStage::ResponseTransform(ResponseTransformStage));
            assert(stages@ =~= seq![ResponseStage::ResponseTransform(ResponseTransformStage)]);
        }
        chains.push(stages);
        i += 1;
    }
    chains
}

/// Whether `g` is what the headers of a response may be after a route's response
/// chain.
pub open spec fn response_fields(route: Route, f: Fields, time: Seq<char>, g: Fields) -> bool {
    match route.response_transform {
        Some(rt) => {
            &&& transforms_to(f, rt, time, g)
            &&& name_count(f) + headers_set(rt) <= MAX_NAMES + 1 ==> g == transformed(f, rt, time)
        },
        None => g == f,
    }
}

/// The new body of a response after a route's response chain, if it has one.
pub open spec fn response_body(route: Route, bytes: Seq<u8>, time: Seq<char>) -> Option<Seq<u8>> {
    match route.response_transform {
        Some(rt) => transformed_body(bytes, rt, time, route.path@),
        None => None,
    }
}

/// Run a route's response chain over a genuine upstream response. The result is its
/// new body, or `None` when the body is left alone.
pub fn run_response_stages(
    stages: &Vec<ResponseStage>,
    route: &Route,
    h: &mut hyper::HeaderMap,
    bytes: &[u8],
    response_time: &str,
) -> (out: Option<Vec<u8>>)
    requires
        is_response_chain_of(*route, stages@),
    ensures
        response_fields(*route, fields(*old(h)), response_time@, fields(*final(h))),
        out is Some == response_body(*route, bytes@, response_time@) is Some,
        out is Some ==> out->0@ == response_body(*route, bytes@, response_time@)->0,
{
    if stages.len() == 0 {
        return None;
    }
    match &route.response_transform {
        Some(rt) => apply(h, bytes, rt, response_time, route.path.as_str()),
        None => None,
    }
}

/// Whether a route's response bodies are read.
pub open spec fn reads_body(route: Route) -> bool {
    route.response_transform is Some && envelope_of(route.response_transform->0) is Some
}

/// Whether a response's body has to be read before the response chain runs: only
/// an envelope looks at it.
pub fn needs_body(route: &Route) -> (r: bool)
    ensures
        r == (route.response_transform is Some && envelope_of(route.response_transform->0) is Some),
        r == reads_body(*route),
{
    match &route.response_transform {
        Some(rt) => response_transform::body_envelope(rt).is_some(),
        None => false,
    }
}

/// Whether a route's request bodies are remapped.
pub open spec fn maps_body(route: Route) -> bool {
    route.request_transform is Some && route.request_transform->0.body is Some
        && route.request_transform->0.body->0.mapping@.len() > 0
}

/// Whether a route's request bodies are kept.
pub open spec fn is_buffered(route: Route) -> bool {
    route.retry is Some || maps_body(route)
}

/// Whether a route's request bodies are buffered, and so are bounded: only a retry,
/// which sends the body again, and a mapping, which reads it, need that. Any other
/// body is streamed.
pub fn buffers_body(route: &Route) -> (r: bool)
    ensures
        r == (route.retry is Some || maps_body(*route)),
        r == is_buffered(*route),
{
    if route.retry.is_some() {
        return true;
    }
    match &route.request_transform {
        Some(rt) => match &rt.body {
            Some(b) => b.mapping.len() > 0,
            None => false,
        },
        None => false,
    }
}

/// The new body of a request that is forwarded on a route, if its body is remapped.
pub open spec fn request_body(route: Route, body: Seq<u8>, time: Seq<char>) -> Option<Seq<u8>> {
    match route.request_transform {
        Some(rt) => match rt.body {
            Some(b) => if b.mapping@.len() > 0 && parsed(body) is Some {
                Some(
                    encoded(mapped(parsed(body)->0, b.mapping@, time, b.mapping@.len() as int)),
                )
            } else {
                None
            },
            None => None,
        },
        None => None,
    }
}

/// Remap the buffered body of a request as its route says. `None` keeps the body as
/// it is.
pub fn map_request_body(route: &Route, body: &[u8], request_time: &str) -> (out: Option<Vec<u8>>)
    ensures
        out is Some == request_body(*route, body@, request_time@) is Some,
        out is Some ==> out->0@ == request_body(*route, body@, request_time@)->0,
{
    match &route.request_transform {
        Some(rt) => match &rt.body {
            Some(b) => apply_body_mapping(body, &b.mapping, request_time),
            None => None,
        },
        None => None,
    }
}

/// What the client is answered with.
pub enum Answer {
    /// The upstream's response, with this body in place of its own if there is one.
    Upstream { body: Option<Vec<u8>> },
    /// A reply of the gateway's own.
    Gateway(Reply),
}

/// Turn the end of an upstream call into the answer. A genuine upstream response is
/// relayed without its hop-by-hop headers and goes through the route's response
/// chain; an error is answered as it is and no transform touches it.
pub fn conclude(
    stages: &Vec<ResponseStage>,
    route: &Route,
    failure: Option<GatewayError>,
    h: &mut hyper::HeaderMap,
    bytes: &[u8],
    response_time: &str,
) -> (answer: Answer)
    requires
        is_response_chain_of(*route, stages@),
    ensures
        match failure {
            Some(e) => {
                &&& answer matches Answer::Gateway(r)
                &&& r@ == e@.reply()
                &&& *final(h) == *old(h)
            },
            None => {
                &&& response_fields(
                    *route,
                    end_to_end(fields(*old(h))),
                    response_time@,
                    fields(*final(h)),
                )
                &&& answer matches Answer::Upstream { body }
                &&& body is Some == response_body(*route, bytes@, response_time@) is Some
                &&& body is Some ==> body->0@ == response_body(*route, bytes@, response_time@)->0
            },
        },
{
    match failure {
        Some(e) => Answer::Gateway(e.into_response()),
        None => {
            strip_hop_by_hop(h);
            let body = run_response_stages(stages, route, h, bytes, response_time);
            Answer::Upstream { body }
        },
    }
}

/// Law: what a route refuses. A request whose method is none of those listed, whatever
/// the case of its letters, is answered with 405 and the list; one without any of the
/// keys as the first value of the header with 401; one over the limit with 429 and the
/// wait. Everything else goes on.
pub proof fn law_what_a_route_refuses(
    route: Route,
    config: Config,
    stages: Seq<Stage>,
    ctx: RequestCtx,
    limiter: Option<RouteLimiter>,
    now: Instant,
)
    requires
        is_chain_of(route, config, stages),
    ensures
        ({
            let refused = first_error(stages, ctx, limiter, now, 0);
            let methods = text::views(route.methods@);
            let header = route.auth->0.header@;
            let keys = text::views(route.auth->0.keys@);
            let f = fields(ctx.headers);
            let listed = exists|j: int|
                0 <= j < methods.len() && text::lower(#[trigger] methods[j]) == text::lower(
                    ctx.method@,
                );
            let known = route.auth is None || is_name(header) && f.dom().contains(
                text::lower(header),
            ) && exists|k: int|
                0 <= k < keys.len() && encode_utf8(#[trigger] keys[k]) == f[text::lower(header)][0];
            let limited = route.rate_limit is Some || config.gateway.global_rate_limit is Some;
            let over = limited && limiter is Some && limiter->0.told(now, ctx.client_ip) is Err;
            &&& !listed ==> refused == Some(
                (ErrorView::MethodNotAllowed { allow: text::joined(methods, seq![',', ' ']) }),
            )
            &&& listed && !known ==> refused == Some(ErrorView::Unauthorized)
            &&& listed && known && over ==> refused == Some(
                (ErrorView::RateLimited {
                    retry_after: limiter->0.told(now, ctx.client_ip)->Err_0,
                }),
            )
            &&& listed && known && !over ==> refused is None
        }),
{
    law_pipeline_order(route, config, stages, ctx, limiter, now);
    reveal_strlit(", ");
    assert(", "@ =~= seq![',', ' ']);
}

/// Law: a request that goes on has its headers rewritten as the route says, or not at
/// all where the route says nothing.
pub proof fn law_headers_that_go_on(
    route: Route,
    config: Config,
    stages: Seq<Stage>,
    ctx: RequestCtx,
    g: Fields,
)
    requires
        is_chain_of(route, config, stages),
        chain_fields(stages, ctx, g),
    ensures
        route.request_transform is None || route.request_transform->0.headers is None ==> g
            == fields(ctx.headers),
        route.request_transform is Some && route.request_transform->0.headers is Some ==> ({
            let ht = route.request_transform->0.headers->0;
            rewrites_to(
                fields(ctx.headers),
                text::views(ht.remove@),
                ht.add@,
                ctx.request_time@,
                g,
            )
        }),
{
}

/// Law: which request bodies are remapped: those of a route with a mapping that is not
/// empty, and of them those that are JSON. What is sent is then the encoding of what
/// the mapping builds; any other body is sent as it came.
pub proof fn law_which_bodies_are_remapped(route: Route, body: Seq<u8>, time: Seq<char>)
    ensures
        route.request_transform is None ==> request_body(route, body, time) is None,
        parsed(body) is None ==> request_body(route, body, time) is None,
        route.request_transform is Some ==> (route.request_transform->0.body matches Some(b) ==> {
            let n = b.mapping@.len() as int;
            &&& n == 0 ==> request_body(route, body, time) is None
            &&& n > 0 && parsed(body) is Some ==> request_body(route, body, time) == Some(
                encoded(mapped(parsed(body)->0, b.mapping@, time, n)),
            )
        }),
{
}

/// Law: without a response transform the upstream's response is returned as it is; with
/// one, its path is that of the route, as configured.
pub proof fn law_response_is_relayed(
    route: Route,
    f: Fields,
    g: Fields,
    bytes: Seq<u8>,
    time: Seq<char>,
)
    requires
        response_fields(route, f, time, g),
    ensures
        route.response_transform is None ==> g == f && response_body(route, bytes, time) is None,
        route.response_transform matches Some(rt) ==> {
            &&& rt.headers is None && (rt.body is None || rt.body->0.envelope is None) ==> g == f
            &&& rt.body is None || rt.body->0.envelope is None ==> response_body(
                route,
                bytes,
                time,
            ) is None
            &&& rt.body is Some && rt.body->0.envelope is Some ==> response_body(
                route,
                bytes,
                time,
            ) == transformed_body(bytes, rt, time, route.path@)
        },
{
}

/// Law: the health endpoint answers `GET` with 200 and the uptime, and every other
/// method with 405 and `GET` as what it takes.
pub proof fn law_health_endpoint(method: Seq<char>, start: Instant, now: Instant)
    ensures
        health_reply(seq!['G', 'E', 'T'], start, now).status == 200,
        health_reply(seq!['G', 'E', 'T'], start, now).body == health::health_body(
            health::uptime(start, now),
        ),
        method != seq!['G', 'E', 'T'] ==> health_reply(method, start, now).status == 405
            && health_reply(method, start, now).headers.contains(("allow"@, seq!['G', 'E', 'T'])),
{
    reveal_strlit("GET");
    assert("GET"@ =~= seq!['G', 'E', 'T']);
    if method != "GET"@ {
        crate::headers::law_printable_values("GET"@);
        let r = health_reply(method, start, now);
        assert(r.headers[1] == ("allow"@, "GET"@));
    }
}

/// Law: which bodies are kept. A request's is if it may have to be sent again or has a
/// mapping to go through, and a response's is if it is wrapped; no other is.
pub proof fn law_which_bodies_are_kept(route: Route)
    ensures
        ({
            let mapping = route.request_transform is Some && route.request_transform->0.body is Some
                && route.request_transform->0.body->0.mapping@.len() > 0;
            is_buffered(route) <==> route.retry is Some || mapping
        }),
        ({
            let envelope = route.response_transform is Some
                && route.response_transform->0.body is Some
                && route.response_transform->0.body->0.envelope is Some;
            reads_body(route) <==> envelope
        }),
{
}

/// Law: a request that is not refused for its method or its credential is counted, on
/// every route that has a limit.
pub proof fn law_other_requests_are_counted(
    route: Route,
    config: Config,
    stages: Seq<Stage>,
    ctx: RequestCtx,
    limiter: Option<RouteLimiter>,
    now: Instant,
)
    requires
        is_chain_of(route, config, stages),
        route.rate_limit is Some || config.gateway.global_rate_limit is Some,
        admission(route, config, ctx, limiter, now) matches Some(e) ==> e is RateLimited,
    ensures
        reaches_limit(stages, ctx, limiter, now),
{
    let k = if route.auth is Some {
        2int
    } else {
        1
    };
    assert(stages[k] is RateLimit);
    assert(stage_error(stages[0], ctx, limiter, now) is None);
    if route.auth is Some {
        assert(stage_error(stages[1], ctx, limiter, now) is None);
    }
    assert(passes(stages, ctx, limiter, now, k));
}

} // verus!

//! The state of a running gateway, built once from its configuration.

use vstd::prelude::*;

use crate::clock::Instant;
use crate::config::{is_valid, Config};
use crate::pipeline::{
    assemble, assemble_response, is_chain_of, is_response_chain_of, ordered, transform_valid,
    ResponseStage, Stage,
};
use crate::rate_limit::{is_fresh_limiter, limit_of, RateLimiterRegistry};
use crate::router::Router;
use crate::upstream::target::{fits, is_fresh_route, UpstreamRegistry};

verus! {

/// Everything a gateway needs to serve requests. Chains, limiters and upstreams are
/// in the order of the configured routes.
pub struct AppState {
    pub config: Config,
    pub router: Router,
    pub stages: Vec<Vec<Stage>>,
    pub response_stages: Vec<Vec<ResponseStage>>,
    pub rate_limiters: RateLimiterRegistry,
    pub upstreams: UpstreamRegistry,
    /// When the gateway was started: what its uptime counts from.
    pub start: Instant,
}

/// Whether a configuration can be set up: its header maps are in order and the
/// weights of a weighted balance can be summed.
pub open spec fn can_set_up(config: Config) -> bool {
    forall|i: int|
        0 <= i < config.routes@.len() ==> transform_valid(#[trigger] config.routes@[i]) && fits(
            config.routes@[i],
        )
}

impl AppState {
    /// The invariant between the parts: each belongs to the same routes.
    pub open spec fn aligned(self) -> bool {
        let routes = self.config.routes@;
        &&& self.router.is_for(routes)
        &&& self.stages@.len() == routes.len()
        &&& self.response_stages@.len() == routes.len()
        &&& self.rate_limiters.limiters@.len() == routes.len()
        &&& self.upstreams.routes@.len() == routes.len()
        &&& forall|i: int|
            0 <= i < routes.len() ==> is_chain_of(
                routes[i],
                self.config,
                (#[trigger] self.stages@[i])@,
            ) && ordered(self.stages@[i]@)
        &&& forall|i: int|
            0 <= i < routes.len() ==> is_response_chain_of(
                routes[i],
                (#[trigger] self.response_stages@[i])@,
            )
    }

    /// Set up a gateway: every part is built from the same configuration, and
    /// nothing has happened to any of them.
    pub fn new(config: Config, now: Instant) -> (s: AppState)
        requires
            can_set_up(config),
        ensures
            s.config == config,
            s.start == now,
            s.aligned(),
            s.rate_limiters.valid(),
            forall|i: int|
                0 <= i < config.routes@.len() ==> is_fresh_limiter(
                    limit_of(#[trigger] config.routes@[i], config),
                    s.rate_limiters.limiters@[i],
                    now,
                ),
            forall|i: int|
                0 <= i < config.routes@.len() ==> is_fresh_route(
                    config.routes@[i],
                    #[trigger] s.upstreams.routes@[i],
                ),
            is_valid(config) ==> forall|i: int|
                0 <= i < config.routes@.len() ==> (#[trigger] s.upstreams.routes@[i]).valid(),
    {
        let router = Router::build(&config);
        let stages = assemble(&config);
        let response_stages = assemble_response(&config);
        let rate_limiters = RateLimiterRegistry::build(&config, now);
        let upstreams = UpstreamRegistry::build(&config);
        AppState {
            config,
            router,
            stages,
            response_stages,
            rate_limiters,
            upstreams,
            start: now,
        }
    }
}

} // verus!

//! The gateway's configuration: its types, the checks a loaded configuration has
//! to pass, and duration strings.

use vstd::prelude::*;

use crate::clock::{Duration, NANOS_PER_MILLI, NANOS_PER_SEC};
use crate::text;
use crate::text::StringMap;
use crate::uri;
use crate::uri::{parsed_uri, UriParts};

verus! {

/// A whole configuration document.
pub struct Config {
    pub gateway: Gateway,
    pub routes: Vec<Route>,
}

/// Settings that hold for the gateway as a whole.
pub struct Gateway {
    pub port: u16,
    pub global_timeout: Option<Duration>,
    pub global_rate_limit: Option<RateLimit>,
}

/// One route: a path prefix, where its requests go, and its policies.
pub struct Route {
    pub path: String,
    pub methods: Vec<String>,
    pub strip_prefix: bool,
    pub upstream: Upstream,
    /// Route-level timeout. A timeout may also stand under `upstream`.
    pub timeout: Option<Duration>,
    pub retry: Option<Retry>,
    pub rate_limit: Option<RateLimit>,
    pub auth: Option<Auth>,
    pub circuit_breaker: Option<CircuitBreaker>,
    pub request_transform: Option<RequestTransform>,
    pub response_transform: Option<ResponseTransform>,
}

/// Where a route's requests go: one `url`, or several `targets`.
pub struct Upstream {
    pub url: Option<String>,
    pub targets: Vec<Target>,
    pub balance: Option<Balance>,
    /// Upstream-level timeout (see [`Route::timeout`]).
    pub timeout: Option<Duration>,
    pub health_check: Option<HealthCheck>,
}

/// One of several targets.
pub struct Target {
    pub url: String,
    pub weight: u32,
}

/// How many requests a window admits, and who shares the count.
#[derive(Clone, Copy, Debug, PartialEq, Eq, Structural)]
pub struct RateLimit {
    pub requests: u64,
    pub window: Duration,
    pub strategy: Strategy,
    pub per: Per,
}

/// How a rate limit counts.
#[derive(Clone, Copy, Debug, PartialEq, Eq, Structural)]
pub enum Strategy {
    FixedWindow,
    SlidingWindow,
}

/// Who shares a rate limit's count.
#[derive(Clone, Copy, Debug, PartialEq, Eq, Structural)]
pub enum Per {
    Ip,
    Global,
}

/// When and how an upstream call is tried again.
pub struct Retry {
    /// Total tries, the first one counted.
    pub attempts: u32,
    pub backoff: Backoff,
    pub initial_delay: Duration,
    /// The upstream statuses that are tried again.
    pub on: Vec<u16>,
}

/// How the delay before a retry grows.
#[derive(Clone, Copy, Debug, PartialEq, Eq, Structural)]
pub enum Backoff {
    Fixed,
    Exponential,
}

/// How requests are spread over targets.
#[derive(Clone, Copy, Debug, PartialEq, Eq, Structural)]
pub enum Balance {
    RoundRobin,
    WeightedRoundRobin,
}

/// The credential a route asks for.
pub struct Auth {
    pub auth_type: AuthType,
    pub header: String,
    pub keys: Vec<String>,
}

/// The kinds of credential.
#[derive(Clone, Copy, Debug, PartialEq, Eq, Structural)]
pub enum AuthType {
    ApiKey,
}

/// When a target's circuit breaker trips and for how long it stays open.
#[derive(Clone, Copy, Debug, PartialEq, Eq, Structural)]
pub struct CircuitBreaker {
    pub threshold: u32,
    pub window: Duration,
    pub cooldown: Duration,
}

/// How a route's targets are probed.
pub struct HealthCheck {
    pub path: String,
    pub interval: Duration,
    pub unhealthy_threshold: u32,
}

/// Changes to a request before it is forwarded.
pub struct RequestTransform {
    pub headers: Option<HeaderTransform>,
    pub body: Option<RequestBodyTransform>,
}

/// Changes to an upstream response before it is returned.
pub struct ResponseTransform {
    pub headers: Option<HeaderTransform>,
    pub body: Option<ResponseBodyTransform>,
}

/// Headers to set and headers to remove.
pub struct HeaderTransform {
    pub add: StringMap,
    pub remove: Vec<String>,
}

/// How a new request body is built: destination dot-path from source.
pub struct RequestBodyTransform {
    pub mapping: StringMap,
}

/// The structure an upstream body is wrapped in, if any.
pub struct ResponseBodyTransform {
    pub envelope: Option<serde_yaml::Value>,
}

/// What is wrong with an upstream URL.
#[derive(Clone, Copy, Debug, PartialEq, Eq, Structural)]
pub enum UrlIssue {
    /// It is not a URI.
    NotAUri,
    /// It has a scheme other than `http` and `https`.
    UnsupportedScheme,
    /// It has no scheme.
    NoScheme,
    /// It has no host.
    NoHost,
}

/// What is wrong with a route.
#[derive(Clone, Copy, Debug, PartialEq, Eq, Structural)]
pub enum Problem {
    /// The path does not start with a slash.
    PathWithoutSlash,
    /// No method is listed.
    NoMethods,
    /// The upstream has both a `url` and `targets`.
    UrlAndTargets,
    /// The upstream has neither a `url` nor `targets`.
    NoUpstream,
    /// The upstream `url` cannot be dialled.
    BadUrl { issue: UrlIssue },
    /// The URL of a target cannot be dialled.
    BadTargetUrl { target: usize, issue: UrlIssue },
    /// An earlier route has the same normalized path.
    DuplicatePath { previous: usize },
    /// There is a `balance` with nothing to balance over.
    BalanceWithoutTargets,
    /// A target has weight zero under `weighted_round_robin`.
    ZeroWeight { target: usize },
}

/// The first problem of a configuration: which route has it, and what it is.
#[derive(Clone, Copy, Debug, PartialEq, Eq, Structural)]
pub struct ConfigError {
    pub route: usize,
    pub problem: Problem,
}

/// What is wrong with a URL, given what it parses to.
pub open spec fn issue_of(parsed: Result<UriParts, Seq<char>>) -> Option<UrlIssue> {
    match parsed {
        Err(_) => Some(UrlIssue::NotAUri),
        Ok(parts) => parts_issue(parts.scheme, parts.authority),
    }
}

/// What is wrong with a URI of that scheme and authority.
pub open spec fn parts_issue(
    scheme: Option<Seq<char>>,
    authority: Option<Seq<char>>,
) -> Option<UrlIssue> {
    match scheme {
        None => Some(UrlIssue::NoScheme),
        Some(s) => if s != "http"@ && s != "https"@ {
            Some(UrlIssue::UnsupportedScheme)
        } else if authority is None {
            Some(UrlIssue::NoHost)
        } else {
            None
        },
    }
}

/// A path with its end slashes cut off; the root stays `/`.
pub open spec fn normalized(path: Seq<char>) -> Seq<char> {
    let cut = text::without_end_slashes(path);
    if cut.len() == 0 {
        "/"@
    } else {
        cut
    }
}

/// The first target, from `j` on, whose URL cannot be dialled.
pub open spec fn bad_target(targets: Seq<Target>, j: int) -> Option<Problem>
    decreases targets.len() - j,
{
    if j < 0 || j >= targets.len() {
        None
    } else {
        match issue_of(parsed_uri(targets[j].url@)) {
            Some(issue) => Some(Problem::BadTargetUrl { target: j as usize, issue }),
            None => bad_target(targets, j + 1),
        }
    }
}

/// The first target, from `j` on, of weight zero.
pub open spec fn zero_weight(targets: Seq<Target>, j: int) -> Option<Problem>
    decreases targets.len() - j,
{
    if j < 0 || j >= targets.len() {
        None
    } else if targets[j].weight == 0 {
        Some(Problem::ZeroWeight { target: j as usize })
    } else {
        zero_weight(targets, j + 1)
    }
}

/// The last of the first `k` routes whose normalized path is `path`.
pub open spec fn route_with_path(routes: Seq<Route>, path: Seq<char>, k: int) -> Option<int>
    decreases k,
{
    if k <= 0 {
        None
    } else if normalized(routes[k - 1].path@) == path {
        Some(k - 1)
    } else {
        route_with_path(routes, path, k - 1)
    }
}

/// The first problem of a route, in the order the checks are made. `previous` is
/// the last earlier route with the same normalized path.
pub open spec fn problem_of(route: Route, previous: Option<int>) -> Option<Problem> {
    let up = route.upstream;
    let has_targets = up.targets@.len() > 0;
    if route.path@.len() == 0 || route.path@[0] != '/' {
        Some(Problem::PathWithoutSlash)
    } else if route.methods@.len() == 0 {
        Some(Problem::NoMethods)
    } else if up.url is Some && has_targets {
        Some(Problem::UrlAndTargets)
    } else if up.url is None && !has_targets {
        Some(Problem::NoUpstream)
    } else if up.url is Some && issue_of(parsed_uri(up.url->0@)) is Some {
        Some(Problem::BadUrl { issue: issue_of(parsed_uri(up.url->0@))->0 })
    } else if bad_target(up.targets@, 0) is Some {
        bad_target(up.targets@, 0)
    } else if previous is Some {
        Some(Problem::DuplicatePath { previous: previous->0 as usize })
    } else if up.balance is Some && !has_targets {
        Some(Problem::BalanceWithoutTargets)
    } else if up.balance == Some(Balance::WeightedRoundRobin) {
        zero_weight(up.targets@, 0)
    } else {
        None
    }
}

/// The first problem of route `i`.
pub open spec fn route_problem(routes: Seq<Route>, i: int) -> Option<Problem> {
    problem_of(routes[i], route_with_path(routes, normalized(routes[i].path@), i))
}

/// Whether a configuration passes every check.
pub open spec fn is_valid(config: Config) -> bool {
    forall|i: int| 0 <= i < config.routes@.len() ==> #[trigger] route_problem(config.routes@, i)
        is None
}

/// Judge a URI by its scheme and authority.
pub fn check_parts(scheme: Option<&str>, authority: Option<&str>) -> (issue: Option<UrlIssue>)
    ensures
        issue == parts_issue(
            match scheme {
                Some(s) => Some(s@),
                None => None,
            },
            match authority {
                Some(a) => Some(a@),
                None => None,
            },
        ),
{
    match scheme {
        None => Some(UrlIssue::NoScheme),
        Some(s) => if !text::eq(s, "http") && !text::eq(s, "https") {
            Some(UrlIssue::UnsupportedScheme)
        } else if authority.is_none() {
            Some(UrlIssue::NoHost)
        } else {
            None
        },
    }
}

/// Check that an upstream URL is an absolute `http` or `https` URL with a host.
pub fn validate_upstream_url(url: &str) -> (issue: Option<UrlIssue>)
    ensures
        issue == issue_of(parsed_uri(url@)),
{
    match uri::parse_uri(url) {
        Err(_) => Some(UrlIssue::NotAUri),
        Ok(u) => check_parts(uri::scheme_of(&u), uri::authority_of(&u)),
    }
}

/// Normalize a route path: `/api` and `/api/` are the same route, and the root
/// stays `/`.
pub fn normalize_path(path: &str) -> (s: String)
    ensures
        s@ == normalized(path@),
{
    let cut = text::trim_end_slashes(path);
    if cut.is_empty() {
        "/".to_string()
    } else {
        cut.to_string()
    }
}

impl Config {
    /// The checks that a document's shape does not express: every route has a path
    /// that starts with a slash, at least one method, exactly one kind of
    /// upstream, dialable URLs, a path no earlier route has, and a `balance` that
    /// makes sense. The first route that fails one is reported, with the first
    /// check it fails.
    pub fn validate(&self) -> (r: Result<(), ConfigError>)
        ensures
            r is Ok <==> is_valid(*self),
            r matches Err(e) ==> e.route < self.routes@.len() && route_problem(
                self.routes@,
                e.route as int,
            ) == Some(e.problem) && forall|j: int|
                0 <= j < e.route ==> #[trigger] route_problem(self.routes@, j) is None,
    {
        let mut seen: Vec<String> = Vec::new();
        let mut i: usize = 0;
        while i < self.routes.len()
            invariant
                i <= self.routes@.len(),
                seen@.len() == i,
                forall|j: int|
                    0 <= j < i ==> (#[trigger] seen@[j])@ == normalized(self.routes@[j].path@),
                forall|j: int| 0 <= j < i ==> #[trigger] route_problem(self.routes@, j) is None,
            decreases self.routes@.len() - i,
        {
            let path = normalize_path(self.routes[i].path.as_str());
            let previous = position_before(&seen, path.as_str(), &self.routes);
            if let Some(problem) = check_route(&self.routes[i], previous) {
                assert(route_problem(self.routes@, i as int) == Some(problem));
                return Err(ConfigError { route: i, problem });
            }
            assert(route_problem(self.routes@, i as int) is None);
            seen.push(path);
            i += 1;
        }
        Ok(())
    }
}

impl Config {
    /// Run the checks of [`Config::validate`] and describe the first problem: what is
    /// wrong, and below it the reason, if there is one.
    pub fn check(&self) -> (r: Result<(), Vec<String>>)
        ensures
            r is Ok <==> is_valid(*self),
            r is Err ==> exists|i: int, problem: Problem|
                0 <= i < self.routes@.len() && #[trigger] route_problem(self.routes@, i) == Some(
                    problem,
                ) && (forall|j: int| 0 <= j < i ==> route_problem(self.routes@, j) is None)
                    && text::views(r->Err_0@) == #[trigger] error_chain(
                    i,
                    self.routes@[i],
                    problem,
                ),
    {
        match self.validate() {
            Ok(_) => Ok(()),
            Err(e) => {
                let mut chain: Vec<String> = Vec::new();
                chain.push(e.message(self));
                if let Some(why) = e.reason(self) {
                    chain.push(why);
                }
                proof {
                    let i = e.route as int;
                    assert(route_problem(self.routes@, i) == Some(e.problem));
                    assert(text::views(chain@) =~= error_chain(i, self.routes@[i], e.problem));
                }
                Err(chain)
            },
        }
    }
}

/// The last route, among those whose normalized paths are listed, that has `path`.
fn position_before(seen: &Vec<String>, path: &str, routes: &Vec<Route>) -> (previous: Option<usize>)
    requires
        seen@.len() <= routes@.len(),
        forall|j: int| 0 <= j < seen@.len() ==> (#[trigger] seen@[j])@ == normalized(routes@[j].path@),
    ensures
        previous is Some == route_with_path(routes@, path@, seen@.len() as int) is Some,
        previous is Some ==> previous->0 == route_with_path(routes@, path@, seen@.len() as int)->0
            && previous->0 < seen@.len(),
{
    let mut k: usize = seen.len();
    while k > 0
        invariant
            k <= seen@.len() <= routes@.len(),
            forall|j: int|
                0 <= j < seen@.len() ==> (#[trigger] seen@[j])@ == normalized(routes@[j].path@),
            route_with_path(routes@, path@, seen@.len() as int) == route_with_path(
                routes@,
                path@,
                k as int,
            ),
        decreases k,
    {
        assert(seen@[k - 1]@ == normalized(routes@[k - 1].path@));
        if text::eq(seen[k - 1].as_str(), path) {
            return Some(k - 1);
        }
        k -= 1;
    }
    None
}

/// The first problem of a route, given the last earlier route with its path.
fn check_route(route: &Route, previous: Option<usize>) -> (problem: Option<Problem>)
    ensures
        problem == problem_of(
            *route,
            match previous {
                Some(p) => Some(p as int),
                None => None,
            },
        ),
{
    let path = text::chars_of(route.path.as_str());
    if path.len() == 0 || path[0] != '/' {
        return Some(Problem::PathWithoutSlash);
    }
    if route.methods.len() == 0 {
        return Some(Problem::NoMethods);
    }
    let has_targets: bool = route.upstream.targets.len() > 0;
    match &route.upstream.url {
        Some(url) => {
            if has_targets {
                return Some(Problem::UrlAndTargets);
            }
            if let Some(issue) = validate_upstream_url(url.as_str()) {
                return Some(Problem::BadUrl { issue });
            }
        },
        None => {
            if !has_targets {
                return Some(Problem::NoUpstream);
            }
        },
    }
    if let Some(problem) = check_target_urls(&route.upstream.targets) {
        return Some(problem);
    }
    if let Some(p) = previous {
        return Some(Problem::DuplicatePath { previous: p });
    }
    match route.upstream.balance {
        Some(balance) => {
            if !has_targets {
                return Some(Problem::BalanceWithoutTargets);
            }
            if balance == Balance::WeightedRoundRobin {
                return check_weights(&route.upstream.targets);
            }
            None
        },
        None => None,
    }
}

/// The first target whose URL cannot be dialled.
fn check_target_urls(targets: &Vec<Target>) -> (problem: Option<Problem>)
    ensures
        problem == bad_target(targets@, 0),
{
    let mut j: usize = 0;
    while j < targets.len()
        invariant
            j <= targets@.len(),
            bad_target(targets@, 0) == bad_target(targets@, j as int),
        decreases targets@.len() - j,
    {
        if let Some(issue) = validate_upstream_url(targets[j].url.as_str()) {
            return Some(Problem::BadTargetUrl { target: j, issue });
        }
        j += 1;
    }
    None
}

/// The first target of weight zero.
fn check_weights(targets: &Vec<Target>) -> (problem: Option<Problem>)
    ensures
        problem == zero_weight(targets@, 0),
{
    let mut j: usize = 0;
    while j < targets.len()
        invariant
            j <= targets@.len(),
            zero_weight(targets@, 0) == zero_weight(targets@, j as int),
        decreases targets@.len() - j,
    {
        if targets[j].weight == 0 {
            return Some(Problem::ZeroWeight { target: j });
        }
        j += 1;
    }
    None
}

/// How a route is referred to in an error: its index and its path.
pub open spec fn route_label(i: int, path: Seq<char>) -> Seq<char> {
    "route["@ + text::decimal(i as nat) + "] (path '"@ + path + "')"@
}

/// What is said of a URL with that issue.
pub open spec fn issue_text(issue: UrlIssue, url: Seq<char>) -> Seq<char> {
    let named = ": upstream url '"@ + url + "'"@;
    match issue {
        UrlIssue::NotAUri => named + " is not a valid URI"@,
        UrlIssue::UnsupportedScheme => named + " has unsupported scheme '"@ + (
        parsed_uri(url)->Ok_0.scheme->0) + "' (expected http/https)"@,
        UrlIssue::NoScheme => named + " must be absolute with an http/https scheme"@,
        UrlIssue::NoHost => named + " is missing a host"@,
    }
}

/// What is said of a route with that problem.
pub open spec fn problem_text(route: Route, problem: Problem) -> Seq<char> {
    match problem {
        Problem::PathWithoutSlash => ": path must start with '/'"@,
        Problem::NoMethods => ": 'methods' must list at least one HTTP method"@,
        Problem::UrlAndTargets => ": upstream sets both 'url' and 'targets'; use exactly one"@,
        Problem::NoUpstream => ": upstream must set either 'url' or 'targets'"@,
        Problem::BadUrl { issue } => issue_text(issue, route.upstream.url->0@),
        Problem::BadTargetUrl { target, issue } => " targets["@ + text::decimal(target as nat)
            + "]"@ + issue_text(issue, route.upstream.targets@[target as int].url@),
        Problem::DuplicatePath { previous } =>
            ": duplicate route path (collides with route["@ + text::decimal(previous as nat)
            + "] after normalization to '"@ + normalized(route.path@) + "')"@,
        Problem::BalanceWithoutTargets =>
            ": 'balance' requires 'targets'; a single 'url' has nothing to balance"@,
        Problem::ZeroWeight { target } => ": targets["@ + text::decimal(target as nat)
            + "] (url '"@ + route.upstream.targets@[target as int].url@
            + "') has weight 0; 'weighted_round_robin' requires weight > 0"@,
    }
}

/// The URL a problem is about, if it is about one.
pub open spec fn url_at_fault(route: Route, problem: Problem) -> Option<(Seq<char>, UrlIssue)> {
    match problem {
        Problem::BadUrl { issue } => Some((route.upstream.url->0@, issue)),
        Problem::BadTargetUrl { target, issue } => Some(
            (route.upstream.targets@[target as int].url@, issue),
        ),
        _ => None,
    }
}

/// Why a route has that problem, where something else says so: the parser's words on
/// a URL that is no URI.
pub open spec fn problem_reason(route: Route, problem: Problem) -> Option<Seq<char>> {
    match url_at_fault(route, problem) {
        Some((url, UrlIssue::NotAUri)) => Some(parsed_uri(url)->Err_0),
        _ => None,
    }
}

/// The error for a problem of route `i`: what is wrong, then the reason, if there is
/// one.
pub open spec fn error_chain(i: int, route: Route, problem: Problem) -> Seq<Seq<char>> {
    let what = route_label(i, route.path@) + problem_text(route, problem);
    match problem_reason(route, problem) {
        Some(why) => seq![what, why],
        None => seq![what],
    }
}

/// Why a URL is no URI.
fn parse_failure(issue: UrlIssue, url: &str) -> (why: Option<String>)
    requires
        issue_of(parsed_uri(url@)) == Some(issue),
    ensures
        why is Some == (issue is NotAUri),
        why is Some ==> why->0@ == parsed_uri(url@)->Err_0,
{
    match issue {
        UrlIssue::NotAUri => match uri::parse_uri(url) {
            Err(why) => Some(why),
            Ok(_) => None,
        },
        _ => None,
    }
}

/// The text for a URL's issue.
fn issue_message(issue: UrlIssue, url: &str) -> (s: String)
    requires
        issue_of(parsed_uri(url@)) == Some(issue),
    ensures
        s@ == issue_text(issue, url@),
{
    let mut s = ": upstream url '".to_string();
    s.append(url);
    s.append("'");
    match issue {
        UrlIssue::NotAUri => {
            s.append(" is not a valid URI");
        },
        UrlIssue::UnsupportedScheme => {
            s.append(" has unsupported scheme '");
            if let Ok(u) = uri::parse_uri(url) {
                if let Some(scheme) = uri::scheme_of(&u) {
                    s.append(scheme);
                }
            }
            s.append("' (expected http/https)");
        },
        UrlIssue::NoScheme => {
            s.append(" must be absolute with an http/https scheme");
        },
        UrlIssue::NoHost => {
            s.append(" is missing a host");
        },
    }
    s
}

/// The first target with a URL problem is a target, and has it.
proof fn lemma_bad_target(targets: Seq<Target>, j: int)
    requires
        0 <= j,
        targets.len() <= usize::MAX,
        bad_target(targets, j) is Some,
    ensures
        bad_target(targets, j) matches Some(Problem::BadTargetUrl { target, issue }) && j <= target
            < targets.len() && issue_of(parsed_uri(targets[target as int].url@)) == Some(issue),
    decreases targets.len() - j,
{
    if issue_of(parsed_uri(targets[j].url@)) is None {
        lemma_bad_target(targets, j + 1);
    }
}

/// The first target of weight zero is a target, and has it.
proof fn lemma_zero_weight(targets: Seq<Target>, j: int)
    requires
        0 <= j,
        targets.len() <= usize::MAX,
    ensures
        zero_weight(targets, j) is None ==> forall|m: int|
            j <= m < targets.len() ==> (#[trigger] targets[m]).weight > 0,
        zero_weight(targets, j) is Some ==> (zero_weight(targets, j) matches Some(
            Problem::ZeroWeight { target },
        ) && j <= target < targets.len() && targets[target as int].weight == 0),
    decreases targets.len() - j,
{
    if j < targets.len() && targets[j].weight != 0 {
        lemma_zero_weight(targets, j + 1);
    }
}

impl ConfigError {
    /// The error as shown to whoever wrote the configuration.
    pub fn message(&self, config: &Config) -> (s: String)
        requires
            self.route < config.routes@.len(),
            route_problem(config.routes@, self.route as int) == Some(self.problem),
        ensures
            s@ == route_label(self.route as int, config.routes@[self.route as int].path@)
                + problem_text(config.routes@[self.route as int], self.problem),
    {
        let route: &Route = &config.routes[self.route];
        let ghost targets = route.upstream.targets@;
        proof {
            assert(targets.len() <= usize::MAX) by {
                assert(route.upstream.targets.len() == targets.len());
            }
            if bad_target(targets, 0) is Some {
                lemma_bad_target(targets, 0);
            }
            lemma_zero_weight(targets, 0);
        }
        let mut s = "route[".to_string();
        s.append(text::decimal_str(self.route as u64).as_str());
        s.append("] (path '");
        s.append(route.path.as_str());
        s.append("')");
        let ghost label = s@;
        let mut rest = String::new();
        match self.problem {
            Problem::PathWithoutSlash => {
                rest.append(": path must start with '/'");
            },
            Problem::NoMethods => {
                rest.append(": 'methods' must list at least one HTTP method");
            },
            Problem::UrlAndTargets => {
                rest.append(": upstream sets both 'url' and 'targets'; use exactly one");
            },
            Problem::NoUpstream => {
                rest.append(": upstream must set either 'url' or 'targets'");
            },
            Problem::BadUrl { issue } => {
                if let Some(url) = &route.upstream.url {
                    rest.append(issue_message(issue, url.as_str()).as_str());
                }
            },
            Problem::BadTargetUrl { target, issue } => {
                rest.append(" targets[");
                rest.append(text::decimal_str(target as u64).as_str());
                rest.append("]");
                rest.append(issue_message(issue, route.upstream.targets[target].url.as_str()).as_str());
            },
            Problem::DuplicatePath { previous } => {
                rest.append(": duplicate route path (collides with route[");
                rest.append(text::decimal_str(previous as u64).as_str());
                rest.append("] after normalization to '");
                rest.append(normalize_path(route.path.as_str()).as_str());
                rest.append("')");
            },
            Problem::BalanceWithoutTargets => {
                rest.append(": 'balance' requires 'targets'; a single 'url' has nothing to balance");
            },
            Problem::ZeroWeight { target } => {
                rest.append(": targets[");
                rest.append(text::decimal_str(target as u64).as_str());
                rest.append("] (url '");
                rest.append(route.upstream.targets[target].url.as_str());
                rest.append("') has weight 0; 'weighted_round_robin' requires weight > 0");
            },
        }
        assert(rest@ =~= problem_text(*route, self.problem));
        s.append(rest.as_str());
        s
    }

    /// Why the route has this problem, where the URL parser says so.
    pub fn reason(&self, config: &Config) -> (why: Option<String>)
        requires
            self.route < config.routes@.len(),
            route_problem(config.routes@, self.route as int) == Some(self.problem),
        ensures
            why is Some == problem_reason(config.routes@[self.route as int], self.problem) is Some,
            why is Some ==> why->0@ == problem_reason(
                config.routes@[self.route as int],
                self.problem,
            )->0,
    {
        let route: &Route = &config.routes[self.route];
        proof {
            let targets = route.upstream.targets@;
            assert(targets.len() <= usize::MAX) by {
                assert(route.upstream.targets.len() == targets.len());
            }
            if bad_target(targets, 0) is Some {
                lemma_bad_target(targets, 0);
            }
            lemma_zero_weight(targets, 0);
        }
        match self.problem {
            Problem::BadUrl { issue } => match &route.upstream.url {
                Some(url) => parse_failure(issue, url.as_str()),
                None => None,
            },
            Problem::BadTargetUrl { target, issue } => {
                parse_failure(issue, route.upstream.targets[target].url.as_str())
            },
            _ => None,
        }
    }
}

/// The length of the run of decimal digits `s` begins with.
pub open spec fn digit_run(s: Seq<char>) -> nat
    decreases s.len(),
{
    if s.len() > 0 && text::is_digit(s[0]) {
        1 + digit_run(s.drop_first())
    } else {
        0
    }
}

/// The nanoseconds in one of the units a duration may have.
pub open spec fn unit_nanos(unit: Seq<char>) -> Option<int> {
    if unit == "ms"@ {
        Some(NANOS_PER_MILLI as int)
    } else if unit == "s"@ {
        Some(NANOS_PER_SEC as int)
    } else if unit == "m"@ {
        Some(60 * NANOS_PER_SEC)
    } else if unit == "h"@ {
        Some(3600 * NANOS_PER_SEC)
    } else {
        None
    }
}

/// Whether that many of a unit are representable: the whole seconds (for `ms`, the
/// milliseconds) fit in 64 bits.
pub open spec fn unit_fits(n: int, unit: Seq<char>) -> bool {
    &&& n <= u64::MAX
    &&& unit == "m"@ ==> n * 60 <= u64::MAX
    &&& unit == "h"@ ==> n * 3600 <= u64::MAX
}

/// What a duration string stands for: a span in nanoseconds, or what is wrong with
/// the string.
pub open spec fn duration_of(s: Seq<char>) -> Result<int, Seq<char>> {
    let t = text::trimmed(s);
    let k = digit_run(t) as int;
    let num = t.take(k);
    let unit = t.skip(k);
    let named = "duration '"@ + t + "'"@;
    if t.len() == 0 {
        Err("empty duration string"@)
    } else if k == t.len() {
        Err(named + " is missing a unit (expected e.g. '30s')"@)
    } else if k == 0 || text::number(num) > u64::MAX {
        Err(named + " has an invalid numeric part '"@ + num + "'"@)
    } else if unit_nanos(unit) is None {
        Err(named + " has an unknown unit '"@ + unit + "'"@)
    } else if !unit_fits(text::number(num) as int, unit) {
        Err(named + " has an invalid numeric part '"@ + num + "'"@)
    } else {
        Ok(text::number(num) * unit_nanos(unit)->0)
    }
}

/// What all characters of a digit run are, and what ends it.
proof fn lemma_digit_run(s: Seq<char>)
    ensures
        digit_run(s) <= s.len(),
        forall|i: int| 0 <= i < digit_run(s) ==> text::is_digit(#[trigger] s[i]),
        digit_run(s) < s.len() ==> !text::is_digit(s[digit_run(s) as int]),
    decreases s.len(),
{
    if s.len() > 0 && text::is_digit(s[0]) {
        let rest = s.drop_first();
        lemma_digit_run(rest);
        assert forall|i: int| 0 <= i < digit_run(s) implies text::is_digit(#[trigger] s[i]) by {
            if i > 0 {
                assert(rest[i - 1] == s[i]);
            }
        }
        if digit_run(s) < s.len() {
            assert(rest[digit_run(rest) as int] == s[digit_run(s) as int]);
        }
    }
}

/// Parse a duration string of the form `<integer><unit>`, the unit being one of
/// `ms`, `s`, `m` and `h`, with white space allowed around it. A number of minutes
/// or hours too large to count in 64-bit seconds is refused.
pub fn parse_duration(s: &str) -> (r: Result<Duration, String>)
    ensures
        r is Ok == duration_of(s@) is Ok,
        r is Ok ==> r->Ok_0.nanos == duration_of(s@)->Ok_0,
        r is Err ==> r->Err_0@ == duration_of(s@)->Err_0,
{
    let t = text::trim(s);
    let v = text::chars_of(t);
    if v.len() == 0 {
        return Err("empty duration string".to_string());
    }
    let ghost run = digit_run(t@);
    let mut k: usize = 0;
    proof {
        lemma_digit_run(t@);
    }
    while k < v.len() && '0' <= v[k] && v[k] <= '9'
        invariant
            v@ == t@,
            k <= run <= t@.len(),
            run == digit_run(t@),
            forall|i: int| 0 <= i < run ==> text::is_digit(#[trigger] t@[i]),
            run < t@.len() ==> !text::is_digit(t@[run as int]),
        decreases v@.len() - k,
    {
        k += 1;
    }
    assert(k == run);
    let mut named = "duration '".to_string();
    named.append(t);
    named.append("'");
    if k == v.len() {
        named.append(" is missing a unit (expected e.g. '30s')");
        return Err(named);
    }
    let num = t.substring_char(0, k);
    let unit = t.substring_char(k, v.len());
    assert(num@ =~= t@.take(k as int));
    assert(unit@ =~= t@.skip(k as int));
    let value: u64 = match text::parse_digits(&v, k) {
        Some(n) => n,
        None => {
            named.append(" has an invalid numeric part '");
            named.append(num);
            named.append("'");
            return Err(named);
        },
    };
    proof {
        reveal_strlit("ms");
        reveal_strlit("s");
        reveal_strlit("m");
        reveal_strlit("h");
        assert("ms"@.len() == 2 && "s"@.len() == 1 && "m"@.len() == 1 && "h"@.len() == 1);
        assert("s"@[0] == 's' && "m"@[0] == 'm' && "h"@[0] == 'h');
    }
    if text::eq(unit, "ms") {
        return Ok(Duration::from_millis(value));
    }
    if text::eq(unit, "s") {
        return Ok(Duration::from_secs(value));
    }
    let factor: u64 = if text::eq(unit, "m") {
        60
    } else if text::eq(unit, "h") {
        3600
    } else {
        named.append(" has an unknown unit '");
        named.append(unit);
        named.append("'");
        return Err(named);
    };
    match value.checked_mul(factor) {
        Some(secs) => {
            assert(secs * 1_000_000_000 == value * (factor * 1_000_000_000)) by (nonlinear_arith)
                requires
                    secs == value * factor,
            ;
            Ok(Duration::from_secs(secs))
        },
        None => {
            named.append(" has an invalid numeric part '");
            named.append(num);
            named.append("'");
            Err(named)
        },
    }
}

/// Resolve the per-attempt timeout, first present wins: a route's `timeout` beats
/// its `upstream.timeout`, which beats the gateway's. With none the call is
/// unbounded.
pub fn effective_timeout(route: &Route, gateway: &Gateway) -> (t: Option<Duration>)
    ensures
        t == timeout_of(*route, *gateway),
{
    match route.timeout {
        Some(d) => Some(d),
        None => match route.upstream.timeout {
            Some(d) => Some(d),
            None => gateway.global_timeout,
        },
    }
}

/// The timeout that applies to a route's upstream calls.
pub open spec fn timeout_of(route: Route, gateway: Gateway) -> Option<Duration> {
    if route.timeout is Some {
        route.timeout
    } else if route.upstream.timeout is Some {
        route.upstream.timeout
    } else {
        gateway.global_timeout
    }
}

/// Law: no two routes of a valid configuration have the same normalized path, so
/// which route a path belongs to is never ambiguous.
pub proof fn law_valid_paths_are_distinct(config: Config, i: int, j: int)
    requires
        is_valid(config),
        0 <= i < j < config.routes@.len(),
    ensures
        normalized(config.routes@[i].path@) != normalized(config.routes@[j].path@),
{
    let routes = config.routes@;
    assert(route_problem(routes, j) is None);
    lemma_no_route_with_path(routes, normalized(routes[j].path@), j, i);
}

proof fn lemma_no_route_with_path(routes: Seq<Route>, path: Seq<char>, k: int, i: int)
    requires
        route_with_path(routes, path, k) is None,
        0 <= i < k,
    ensures
        normalized(routes[i].path@) != path,
    decreases k,
{
    if i < k - 1 {
        lemma_no_route_with_path(routes, path, k - 1, i);
    }
}

/// Law: normalizing a path twice is normalizing it once.
pub proof fn law_normalizing_is_idempotent(path: Seq<char>)
    ensures
        normalized(normalized(path)) == normalized(path),
{
    let cut = text::without_end_slashes(path);
    text::lemma_without_end_slashes(path);
    reveal_strlit("/");
    if cut.len() == 0 {
        let root = "/"@;
        assert(root.drop_last() =~= Seq::<char>::empty());
        assert(text::without_end_slashes(root) == text::without_end_slashes(root.drop_last()));
    }
}

/// Law: every route of a valid configuration has an upstream to go to, under a
/// weighted balance with no weight of zero.
pub proof fn law_valid_routes_have_targets(config: Config, i: int)
    requires
        is_valid(config),
        0 <= i < config.routes@.len(),
    ensures
        ({
            let up = config.routes@[i].upstream;
            &&& up.url is Some || up.targets@.len() > 0
            &&& up.balance is Some ==> up.targets@.len() > 0
            &&& up.balance == Some(Balance::WeightedRoundRobin) ==> forall|j: int|
                0 <= j < up.targets@.len() ==> (#[trigger] up.targets@[j]).weight > 0
        }),
{
    let up = config.routes@[i].upstream;
    assert(route_problem(config.routes@, i) is None);
    assert(up.targets@.len() <= usize::MAX) by {
        assert(up.targets.len() == up.targets@.len());
    }
    lemma_zero_weight(up.targets@, 0);
}

/// Law: every upstream URL of a valid configuration can be dialled: it is a URI with
/// an `http` or `https` scheme and an authority.
pub proof fn law_valid_urls_can_be_dialled(config: Config, i: int, j: int)
    requires
        is_valid(config),
        0 <= i < config.routes@.len(),
    ensures
        ({
            let up = config.routes@[i].upstream;
            &&& up.url is Some ==> dialable(up.url->0@)
            &&& 0 <= j < up.targets@.len() ==> dialable(up.targets@[j].url@)
        }),
{
    let up = config.routes@[i].upstream;
    assert(route_problem(config.routes@, i) is None);
    if 0 <= j < up.targets@.len() {
        lemma_no_bad_target(up.targets@, 0, j);
    }
}

/// Whether a URL can be dialled.
pub open spec fn dialable(url: Seq<char>) -> bool {
    &&& parsed_uri(url) is Ok
    &&& parsed_uri(url)->Ok_0.scheme == Some("http"@) || parsed_uri(url)->Ok_0.scheme == Some(
        "https"@,
    )
    &&& parsed_uri(url)->Ok_0.authority is Some
}

proof fn lemma_no_bad_target(targets: Seq<Target>, from: int, j: int)
    requires
        bad_target(targets, from) is None,
        0 <= from <= j < targets.len(),
    ensures
        issue_of(parsed_uri(targets[j].url@)) is None,
    decreases j - from,
{
    if from < j {
        lemma_no_bad_target(targets, from + 1, j);
    }
}

/// Whether route `i` is one the gateway can serve: its path begins with a slash and is
/// that of no earlier route, it lists a method, it has a `url` or `targets` but not
/// both, every URL can be dialled, and a balance has targets, of which a weighted one
/// has none of weight zero.
pub open spec fn is_sound(routes: Seq<Route>, i: int) -> bool {
    let route = routes[i];
    let up = route.upstream;
    &&& route.path@.len() > 0 && route.path@[0] == '/'
    &&& route.methods@.len() > 0
    &&& up.url is Some <==> up.targets@.len() == 0
    &&& up.url is Some ==> dialable(up.url->0@)
    &&& forall|j: int|
        0 <= j < up.targets@.len() ==> dialable((#[trigger] up.targets@[j]).url@)
    &&& forall|j: int|
        0 <= j < i ==> normalized((#[trigger] routes[j]).path@) != normalized(route.path@)
    &&& up.balance is Some ==> up.targets@.len() > 0
    &&& up.balance == Some(Balance::WeightedRoundRobin) ==> forall|j: int|
        0 <= j < up.targets@.len() ==> (#[trigger] up.targets@[j]).weight > 0
}

/// What is found of an earlier route with that path: the last one, if there is any.
proof fn lemma_route_with_path(routes: Seq<Route>, path: Seq<char>, k: int)
    ensures
        match route_with_path(routes, path, k) {
            Some(p) => 0 <= p < k && normalized(routes[p].path@) == path && forall|j: int|
                p < j < k ==> normalized((#[trigger] routes[j]).path@) != path,
            None => forall|j: int| 0 <= j < k ==> normalized((#[trigger] routes[j]).path@) != path,
        },
    decreases k,
{
    if k > 0 && normalized(routes[k - 1].path@) != path {
        lemma_route_with_path(routes, path, k - 1);
    }
}

/// What is found of the targets from `from` on: the first whose URL cannot be dialled.
proof fn lemma_targets(targets: Seq<Target>, from: int)
    requires
        0 <= from,
        targets.len() <= usize::MAX,
    ensures
        match bad_target(targets, from) {
            Some(p) => p matches Problem::BadTargetUrl { target, issue } && from <= target
                < targets.len() && issue_of(parsed_uri(targets[target as int].url@)) == Some(issue)
                && forall|j: int|
                from <= j < target ==> dialable((#[trigger] targets[j]).url@),
            None => forall|j: int|
                from <= j < targets.len() ==> dialable((#[trigger] targets[j]).url@),
        },
    decreases targets.len() - from,
{
    if from < targets.len() {
        law_url_issues(targets[from].url@);
        if issue_of(parsed_uri(targets[from].url@)) is None {
            lemma_targets(targets, from + 1);
        }
    }
}

/// Law: what is wrong with an upstream URL. Nothing is, exactly if it is a URI with
/// an `http` or `https` scheme and an authority.
pub proof fn law_url_issues(url: Seq<char>)
    ensures
        issue_of(parsed_uri(url)) is None <==> dialable(url),
        issue_of(parsed_uri(url)) == Some(UrlIssue::NotAUri) <==> parsed_uri(url) is Err,
        issue_of(parsed_uri(url)) == Some(UrlIssue::NoScheme) <==> parsed_uri(url) is Ok
            && parsed_uri(url)->Ok_0.scheme is None,
        issue_of(parsed_uri(url)) == Some(UrlIssue::NoHost) <==> (parsed_uri(url) is Ok && (
        parsed_uri(url)->Ok_0.scheme == Some("http"@) || parsed_uri(url)->Ok_0.scheme == Some(
            "https"@,
        )) && parsed_uri(url)->Ok_0.authority is None),
{
    assert(Some("http"@)->0 == "http"@ && Some("https"@)->0 == "https"@);
}

/// Law: what is wrong with a URI of that scheme and authority, whatever they are.
pub proof fn law_schemes(scheme: Seq<char>, authority: Seq<char>)
    ensures
        parts_issue(Some("http"@), Some(authority)) is None,
        parts_issue(Some("https"@), Some(authority)) is None,
        parts_issue(Some("http"@), None) == Some(UrlIssue::NoHost),
        parts_issue(Some("https"@), None) == Some(UrlIssue::NoHost),
        parts_issue(None, Some(authority)) == Some(UrlIssue::NoScheme),
        parts_issue(None, None) == Some(UrlIssue::NoScheme),
        scheme != "http"@ && scheme != "https"@ ==> parts_issue(Some(scheme), Some(authority))
            == Some(UrlIssue::UnsupportedScheme) && parts_issue(Some(scheme), None) == Some(
            UrlIssue::UnsupportedScheme,
        ),
{
}

/// Law: a configuration is accepted exactly if every route of it is sound.
pub proof fn law_valid_exactly_if_sound(config: Config)
    ensures
        is_valid(config) <==> forall|i: int|
            0 <= i < config.routes@.len() ==> #[trigger] is_sound(config.routes@, i),
{
    let routes = config.routes@;
    assert forall|i: int| 0 <= i < routes.len() implies (#[trigger] route_problem(routes, i) is None
        <==> is_sound(routes, i)) by {
        let up = routes[i].upstream;
        assert(up.targets@.len() <= usize::MAX) by {
            assert(up.targets.len() == up.targets@.len());
        }
        lemma_route_with_path(routes, normalized(routes[i].path@), i);
        lemma_targets(up.targets@, 0);
        lemma_zero_weight(up.targets@, 0);
        if up.url is Some {
            law_url_issues(up.url->0@);
        }
        if bad_target(up.targets@, 0) is Some {
            let target = bad_target(up.targets@, 0)->0->BadTargetUrl_target;
            law_url_issues(up.targets@[target as int].url@);
        }
    }
    if forall|i: int| 0 <= i < routes.len() ==> #[trigger] is_sound(routes, i) {
        assert forall|i: int| 0 <= i < routes.len() implies #[trigger] route_problem(routes, i)
            is None by {
            assert(is_sound(routes, i));
        }
    }
    if is_valid(config) {
        assert forall|i: int| 0 <= i < routes.len() implies #[trigger] is_sound(routes, i) by {
            assert(route_problem(routes, i) is None);
        }
    }
}

/// Law: what is reported is there. A missing slash comes before missing methods, those
/// before the kind of upstream, and that before the URLs; of the targets the first at
/// fault is named, and of the routes with the same path the last earlier one.
pub proof fn law_reported_problems_are_real(config: Config, i: int)
    requires
        0 <= i < config.routes@.len(),
    ensures
        ({
            let routes = config.routes@;
            let route = routes[i];
            let up = route.upstream;
            let slash = route.path@.len() > 0 && route.path@[0] == '/';
            let methods = route.methods@.len() > 0;
            let several = up.targets@.len() > 0;
            let found = route_problem(routes, i);
            &&& found == Some(Problem::PathWithoutSlash) <==> !slash
            &&& found == Some(Problem::NoMethods) <==> slash && !methods
            &&& found == Some(Problem::UrlAndTargets) <==> slash && methods && up.url is Some
                && several
            &&& found == Some(Problem::NoUpstream) <==> slash && methods && up.url is None
                && !several
            &&& found matches Some(Problem::BadUrl { issue }) ==> up.url is Some && !dialable(
                up.url->0@,
            ) && issue_of(parsed_uri(up.url->0@)) == Some(issue)
            &&& found matches Some(Problem::BadTargetUrl { target, issue }) ==> target
                < up.targets@.len() && !dialable(up.targets@[target as int].url@) && issue_of(
                parsed_uri(up.targets@[target as int].url@),
            ) == Some(issue) && forall|j: int|
                0 <= j < target ==> dialable((#[trigger] up.targets@[j]).url@)
            &&& found matches Some(Problem::DuplicatePath { previous }) ==> previous < i
                && normalized(routes[previous as int].path@) == normalized(route.path@)
                && forall|j: int|
                previous < j < i ==> normalized((#[trigger] routes[j]).path@) != normalized(
                    route.path@,
                )
            &&& found == Some(Problem::BalanceWithoutTargets) ==> up.balance is Some && !several
            &&& found matches Some(Problem::ZeroWeight { target }) ==> up.balance == Some(
                Balance::WeightedRoundRobin,
            ) && target < up.targets@.len() && up.targets@[target as int].weight == 0 && forall|
                j: int,
            |
                0 <= j < target ==> (#[trigger] up.targets@[j]).weight > 0
        }),
{
    let routes = config.routes@;
    let up = routes[i].upstream;
    assert(up.targets@.len() <= usize::MAX) by {
        assert(up.targets.len() == up.targets@.len());
    }
    assert(routes.len() <= usize::MAX) by {
        assert(config.routes.len() == routes.len());
    }
    lemma_route_with_path(routes, normalized(routes[i].path@), i);
    lemma_targets(up.targets@, 0);
    lemma_zero_weight(up.targets@, 0);
    lemma_first_zero_weight(up.targets@, 0);
    if up.url is Some {
        law_url_issues(up.url->0@);
    }
    if bad_target(up.targets@, 0) is Some {
        let target = bad_target(up.targets@, 0)->0->BadTargetUrl_target;
        law_url_issues(up.targets@[target as int].url@);
    }
}

/// No target before the one of weight zero that is named has weight zero.
proof fn lemma_first_zero_weight(targets: Seq<Target>, from: int)
    requires
        0 <= from,
        targets.len() <= usize::MAX,
    ensures
        zero_weight(targets, from) matches Some(Problem::ZeroWeight { target }) ==> forall|j: int|
            from <= j < target ==> (#[trigger] targets[j]).weight > 0,
    decreases targets.len() - from,
{
    if from < targets.len() && targets[from].weight != 0 {
        lemma_first_zero_weight(targets, from + 1);
    }
}

/// Law: end slashes make no difference to a path, and a path of nothing else is the
/// root.
pub proof fn law_end_slashes_do_not_count(path: Seq<char>, slashes: nat)
    requires
        path.len() > 0 ==> path.last() != '/',
    ensures
        normalized(path + Seq::new(slashes, |i: int| '/')) == if path.len() > 0 {
            path
        } else {
            seq!['/']
        },
{
    text::law_end_slashes(path, slashes);
    reveal_strlit("/");
    assert("/"@ =~= seq!['/']);
}

/// A run of digits before anything else is the run that is found.
proof fn lemma_digits_then(digits: Seq<char>, rest: Seq<char>)
    requires
        forall|i: int| 0 <= i < digits.len() ==> '0' <= #[trigger] digits[i] <= '9',
        rest.len() > 0 ==> !('0' <= rest[0] <= '9'),
    ensures
        digit_run(digits + rest) == digits.len(),
        (digits + rest).take(digits.len() as int) == digits,
        (digits + rest).skip(digits.len() as int) == rest,
    decreases digits.len(),
{
    let s = digits + rest;
    assert(s.take(digits.len() as int) =~= digits);
    assert(s.skip(digits.len() as int) =~= rest);
    if digits.len() > 0 {
        assert(s[0] == digits[0]);
        assert(s.drop_first() =~= digits.drop_first() + rest);
        lemma_digits_then(digits.drop_first(), rest);
    } else {
        assert(s =~= rest);
    }
}

/// Law: a number and a unit stand for that many milliseconds, seconds, minutes of 60
/// seconds or hours of 60 minutes, whatever blanks stand around them, as long as 64
/// bits hold the milliseconds or the seconds.
pub proof fn law_durations(left: Seq<char>, digits: Seq<char>, right: Seq<char>)
    requires
        digits.len() > 0,
        forall|i: int| 0 <= i < digits.len() ==> '0' <= #[trigger] digits[i] <= '9',
        forall|i: int|
            0 <= i < left.len() ==> (#[trigger] left[i] == ' ' || left[i] == '\t' || left[i] == '\n'
                || left[i] == '\r'),
        forall|i: int|
            0 <= i < right.len() ==> (#[trigger] right[i] == ' ' || right[i] == '\t' || right[i]
                == '\n' || right[i] == '\r'),
    ensures
        ({
            let n = text::number(digits) as int;
            let ms = duration_of(left + (digits + seq!['m', 's']) + right);
            let secs = duration_of(left + (digits + seq!['s']) + right);
            let mins = duration_of(left + (digits + seq!['m']) + right);
            let hours = duration_of(left + (digits + seq!['h']) + right);
            &&& n <= u64::MAX ==> ms is Ok && ms->Ok_0 == n * 1_000_000
            &&& n <= u64::MAX ==> secs is Ok && secs->Ok_0 == n * 1_000_000_000
            &&& n * 60 <= u64::MAX ==> mins is Ok && mins->Ok_0 == n * 60 * 1_000_000_000
            &&& n * 3600 <= u64::MAX ==> hours is Ok && hours->Ok_0 == n * 60 * 60 * 1_000_000_000
            &&& n > u64::MAX ==> ms is Err && secs is Err
            &&& n * 60 > u64::MAX ==> mins is Err
            &&& n * 3600 > u64::MAX ==> hours is Err
        }),
{
    lemma_units();
    let ms = seq!['m', 's'];
    lemma_digits_then(digits, ms);
    lemma_digits_then(digits, seq!['s']);
    lemma_digits_then(digits, seq!['m']);
    lemma_digits_then(digits, seq!['h']);
    text::law_trim(left, digits + ms, right);
    text::law_trim(left, digits + seq!['s'], right);
    text::law_trim(left, digits + seq!['m'], right);
    text::law_trim(left, digits + seq!['h'], right);
    let n = text::number(digits) as int;
    lemma_span(n, unit_nanos(ms)->0, 1_000_000);
    lemma_span(n, unit_nanos(seq!['s'])->0, 1_000_000_000);
    lemma_span(n, unit_nanos(seq!['m'])->0, 60_000_000_000);
    lemma_span(n, unit_nanos(seq!['h'])->0, 3_600_000_000_000);
}

/// A number of a unit is that number of what the unit is.
proof fn lemma_span(n: int, unit: int, nanos: int)
    requires
        unit == nanos,
    ensures
        n * unit == n * nanos,
{
}

/// The units, spelt out.
proof fn lemma_units()
    ensures
        "ms"@ == seq!['m', 's'],
        "s"@ == seq!['s'],
        "m"@ == seq!['m'],
        "h"@ == seq!['h'],
        seq!['s'] != seq!['m', 's'] && seq!['m'] != seq!['m', 's'] && seq!['h'] != seq!['m', 's'],
        seq!['m'] != seq!['s'] && seq!['h'] != seq!['s'] && seq!['h'] != seq!['m'],
{
    reveal_strlit("ms");
    reveal_strlit("s");
    reveal_strlit("m");
    reveal_strlit("h");
    assert("ms"@ =~= seq!['m', 's']);
    assert("s"@ =~= seq!['s']);
    assert("m"@ =~= seq!['m']);
    assert("h"@ =~= seq!['h']);
    assert(seq!['s'].len() == 1 && seq!['m'].len() == 1 && seq!['h'].len() == 1);
    assert(seq!['m', 's'].len() == 2);
    assert(seq!['s'][0] == 's' && seq!['m'][0] == 'm' && seq!['h'][0] == 'h');
}

/// Law: nothing else is a duration: not a number alone, nor a unit alone, nor a unit
/// other than the four, nor a number that 64 bits do not hold.
pub proof fn law_bad_durations(digits: Seq<char>, unit: Seq<char>)
    requires
        forall|i: int| 0 <= i < digits.len() ==> '0' <= #[trigger] digits[i] <= '9',
        unit.len() > 0 ==> '!' <= unit[0] <= '~' && '!' <= unit.last() <= '~' && !('0' <= unit[0]
            <= '9'),
        digits.len() == 0 || unit.len() == 0 || text::number(digits) > u64::MAX || !(unit == "ms"@
            || unit == "s"@ || unit == "m"@ || unit == "h"@),
    ensures
        duration_of(digits + unit) is Err,
{
    let s = digits + unit;
    lemma_digits_then(digits, unit);
    let none = Seq::<char>::empty();
    if s.len() > 0 {
        if unit.len() > 0 {
            assert(s.last() == unit.last());
        } else {
            assert(s.last() == digits.last());
        }
        if digits.len() > 0 {
            assert(s[0] == digits[0]);
        } else {
            assert(s[0] == unit[0]);
        }
    }
    text::law_trim(none, s, none);
    assert(none + s + none =~= s);
    assert(text::trimmed(s) == s);
    let k = digits.len() as int;
    assert(digit_run(s) == k && s.take(k) == digits && s.skip(k) == unit);
    assert(s.len() == k + unit.len());
}

/// Law: the timeout that stands closest counts: the route's own, else that of its
/// upstream, else the gateway's, else none.
pub proof fn law_closest_timeout_counts(route: Route, gateway: Gateway, d: Duration)
    ensures
        route.timeout == Some(d) ==> timeout_of(route, gateway) == Some(d),
        route.timeout is None && route.upstream.timeout == Some(d) ==> timeout_of(route, gateway)
            == Some(d),
        route.timeout is None && route.upstream.timeout is None ==> timeout_of(route, gateway)
            == gateway.global_timeout,
{
}

/// Law: an error names the route by its position and its path, and is followed by a
/// reason exactly if a URL is no URI.
pub proof fn law_errors_name_the_route(i: int, route: Route, problem: Problem)
    requires
        0 <= i,
    ensures
        ("route["@ + text::decimal(i as nat) + "] (path '"@ + route.path@ + "')"@).is_prefix_of(
            error_chain(i, route, problem)[0],
        ),
        error_chain(i, route, problem).len() == 2 <==> (problem == (Problem::BadUrl {
            issue: UrlIssue::NotAUri,
        }) || (problem matches Problem::BadTargetUrl { issue, .. } && issue == UrlIssue::NotAUri)),
{
    let label = route_label(i, route.path@);
    let what = label + problem_text(route, problem);
    assert(what.subrange(0, label.len() as int) =~= label);
}

/// Law: what is said of a route. Each problem is told apart from the others, and says
/// which target, which earlier route or which URL it is about.
pub proof fn law_problem_texts(route: Route, target: usize, previous: usize)
    ensures
        problem_text(route, Problem::PathWithoutSlash) == ": path must start with '/'"@,
        problem_text(route, Problem::NoMethods)
            == ": 'methods' must list at least one HTTP method"@,
        problem_text(route, Problem::UrlAndTargets)
            == ": upstream sets both 'url' and 'targets'; use exactly one"@,
        problem_text(route, Problem::NoUpstream)
            == ": upstream must set either 'url' or 'targets'"@,
        problem_text(route, Problem::BalanceWithoutTargets)
            == ": 'balance' requires 'targets'; a single 'url' has nothing to balance"@,
        problem_text(route, (Problem::DuplicatePath { previous }))
            == ": duplicate route path (collides with route["@ + text::decimal(previous as nat)
            + "] after normalization to '"@ + normalized(route.path@) + "')"@,
        problem_text(route, (Problem::ZeroWeight { target })) == ": targets["@ + text::decimal(
            target as nat,
        ) + "] (url '"@ + route.upstream.targets@[target as int].url@
            + "') has weight 0; 'weighted_round_robin' requires weight > 0"@,
        problem_text(route, (Problem::BadTargetUrl { target, issue: UrlIssue::NoHost }))
            == " targets["@ + text::decimal(target as nat) + "]"@ + (": upstream url '"@
            + route.upstream.targets@[target as int].url@ + "'"@ + " is missing a host"@),
{
}

/// Law: what is said of a URL names it and tells the issues apart.
pub proof fn law_issue_texts(url: Seq<char>)
    ensures
        issue_text(UrlIssue::NotAUri, url) == ": upstream url '"@ + url + "'"@
            + " is not a valid URI"@,
        issue_text(UrlIssue::NoScheme, url) == ": upstream url '"@ + url + "'"@
            + " must be absolute with an http/https scheme"@,
        issue_text(UrlIssue::NoHost, url) == ": upstream url '"@ + url + "'"@
            + " is missing a host"@,
        issue_text(UrlIssue::UnsupportedScheme, url) == ": upstream url '"@ + url + "'"@
            + " has unsupported scheme '"@ + (parsed_uri(url)->Ok_0.scheme->0)
            + "' (expected http/https)"@,
{
}

} // verus!

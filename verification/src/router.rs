//! Route matching: the longest matching prefix, on path-segment boundaries.

use vstd::prelude::*;

use crate::config::{normalize_path, normalized, Config, Route};
use crate::text;

verus! {

/// The prefixes of all routes, longest first.
pub struct Router {
    entries: Vec<(String, usize)>,
}

/// A match: which route, and the path that remains after its prefix.
pub struct Match {
    pub route_index: usize,
    /// The path after the prefix: prefix `/api/products` and path
    /// `/api/products/123` leave `/123`.
    pub tail: String,
}

/// What remains of `path` after `prefix`, if the prefix matches: the root matches
/// everything and leaves the path; the prefix itself leaves `/`; otherwise the
/// prefix has to end where a segment does.
pub open spec fn tail_of(prefix: Seq<char>, path: Seq<char>) -> Option<Seq<char>> {
    let rest = path.skip(prefix.len() as int);
    if prefix == "/"@ {
        Some(path)
    } else if path == prefix {
        Some("/"@)
    } else if prefix.is_prefix_of(path) && rest.len() > 0 && rest[0] == '/' {
        Some(rest)
    } else {
        None
    }
}

/// The prefix of route `i`.
pub open spec fn prefix_of(routes: Seq<Route>, i: int) -> Seq<char> {
    normalized(routes[i].path@)
}

/// Whether route `i` matches.
pub open spec fn route_matches(routes: Seq<Route>, i: int, path: Seq<char>) -> bool {
    tail_of(prefix_of(routes, i), path) is Some
}

/// Whether route `i` goes before route `j`: a longer prefix does, and among equally
/// long ones the route that was declared first.
pub open spec fn goes_first(routes: Seq<Route>, i: int, j: int) -> bool {
    let a = prefix_of(routes, i).len();
    let b = prefix_of(routes, j).len();
    a > b || (a == b && i < j)
}

/// What a path is routed to: the matching route that goes before all others that
/// match.
pub open spec fn routed_to(routes: Seq<Route>, path: Seq<char>, i: int) -> bool {
    &&& 0 <= i < routes.len()
    &&& route_matches(routes, i, path)
    &&& forall|j: int|
        0 <= j < routes.len() && j != i && #[trigger] route_matches(routes, j, path) ==> goes_first(
            routes,
            i,
            j,
        )
}

/// Whether route `i` has an entry.
spec fn listed(entries: Seq<(String, usize)>, i: int) -> bool {
    exists|k: int| 0 <= k < entries.len() && (#[trigger] entries[k]).1 == i
}

impl Router {
    /// Whether this is the table for those routes: every route once, in the order
    /// in which they are tried.
    pub closed spec fn is_for(self, routes: Seq<Route>) -> bool {
        &&& self.entries@.len() == routes.len()
        &&& forall|k: int|
            0 <= k < self.entries@.len() ==> {
                &&& (#[trigger] self.entries@[k]).1 < routes.len()
                &&& self.entries@[k].0@ == prefix_of(routes, self.entries@[k].1 as int)
            }
        &&& forall|k: int, m: int|
            0 <= k < m < self.entries@.len() ==> goes_first(
                routes,
                (#[trigger] self.entries@[k]).1 as int,
                (#[trigger] self.entries@[m]).1 as int,
            )
        &&& forall|i: int| 0 <= i < routes.len() ==> #[trigger] listed(self.entries@, i)
    }

    /// Build the table for a configuration.
    pub fn build(config: &Config) -> (r: Router)
        ensures
            r.is_for(config.routes@),
    {
        let ghost routes = config.routes@;
        let mut entries: Vec<(String, usize)> = Vec::new();
        let mut i: usize = 0;
        while i < config.routes.len()
            invariant
                routes == config.routes@,
                i <= routes.len(),
                holds_first(entries@, routes, i as int),
            decreases config.routes@.len() - i,
        {
            let prefix = normalize_path(config.routes[i].path.as_str());
            insert_entry(&mut entries, prefix, i, Ghost(routes));
            i += 1;
        }
        Router { entries }
    }

    /// The longest-prefix match for a path without its query string.
    pub fn match_route(&self, path: &str) -> (m: Option<Match>)
        ensures
            forall|routes: Seq<Route>| #[trigger]
                self.is_for(routes) ==> match m {
                    Some(found) => routed_to(routes, path@, found.route_index as int) && tail_of(
                        prefix_of(routes, found.route_index as int),
                        path@,
                    ) == Some(found.tail@),
                    None => forall|i: int|
                        0 <= i < routes.len() ==> !#[trigger] route_matches(routes, i, path@),
                },
    {
        let mut k: usize = 0;
        while k < self.entries.len()
            invariant
                k <= self.entries@.len(),
                forall|m: int|
                    0 <= m < k ==> tail_of((#[trigger] self.entries@[m]).0@, path@) is None,
            decreases self.entries@.len() - k,
        {
            if let Some(tail) = match_prefix(self.entries[k].0.as_str(), path) {
                let found = Match { route_index: self.entries[k].1, tail };
                proof {
                    assert forall|routes: Seq<Route>| #[trigger] self.is_for(routes) implies routed_to(
                        routes,
                        path@,
                        found.route_index as int,
                    ) by {
                        let at = found.route_index as int;
                        assert forall|j: int|
                            0 <= j < routes.len() && j != at && #[trigger] route_matches(
                                routes,
                                j,
                                path@,
                            ) implies goes_first(routes, at, j) by {
                            assert(listed(self.entries@, j));
                            let e = choose|e: int|
                                0 <= e < self.entries@.len() && (#[trigger] self.entries@[e]).1 == j;
                            assert(self.entries@[e].0@ == prefix_of(routes, j));
                            assert(e > k);
                            assert(goes_first(
                                routes,
                                self.entries@[k as int].1 as int,
                                self.entries@[e].1 as int,
                            ));
                        }
                    }
                }
                return Some(found);
            }
            k += 1;
        }
        proof {
            assert forall|routes: Seq<Route>, i: int|
                #[trigger] self.is_for(routes) && 0 <= i < routes.len() implies !#[trigger] route_matches(
                routes,
                i,
                path@,
            ) by {
                assert(listed(self.entries@, i));
                let e = choose|e: int|
                    0 <= e < self.entries@.len() && (#[trigger] self.entries@[e]).1 == i;
                assert(self.entries@[e].0@ == prefix_of(routes, i));
            }
        }
        None
    }
}

/// Whether the entries are those of the first `n` routes, in the order in which
/// they are tried.
spec fn holds_first(entries: Seq<(String, usize)>, routes: Seq<Route>, n: int) -> bool {
    &&& entries.len() == n <= routes.len()
    &&& forall|k: int|
        0 <= k < entries.len() ==> {
            &&& (#[trigger] entries[k]).1 < n
            &&& entries[k].0@ == prefix_of(routes, entries[k].1 as int)
        }
    &&& forall|k: int, m: int|
        0 <= k < m < entries.len() ==> goes_first(
            routes,
            (#[trigger] entries[k]).1 as int,
            (#[trigger] entries[m]).1 as int,
        )
    &&& forall|i: int| 0 <= i < n ==> #[trigger] listed(entries, i)
}

/// Put the next route where it is to be tried: after every route with a prefix at
/// least as long.
fn insert_entry(
    entries: &mut Vec<(String, usize)>,
    prefix: String,
    i: usize,
    Ghost(routes): Ghost<Seq<Route>>,
)
    requires
        holds_first(old(entries)@, routes, i as int),
        i < routes.len(),
        prefix@ == prefix_of(routes, i as int),
    ensures
        holds_first(final(entries)@, routes, i + 1),
{
    let ghost start = entries@;
    let len: usize = prefix.as_str().unicode_len();
    let mut at: usize = entries.len();
    while at > 0 && entries[at - 1].0.as_str().unicode_len() < len
        invariant
            at <= entries@.len(),
            entries@ == start,
            len == prefix@.len(),
            forall|k: int| at <= k < start.len() ==> (#[trigger] start[k]).0@.len() < len,
        decreases at,
    {
        at -= 1;
    }
    proof {
        assert forall|k: int| 0 <= k < at implies (#[trigger] start[k]).0@.len() >= len by {
            if k < at - 1 {
                assert(goes_first(routes, start[k].1 as int, start[at - 1].1 as int));
                assert(start[at - 1].0@.len() >= len);
            }
        }
    }
    entries.insert(at, (prefix, i));
    proof {
        let end = entries@;
        assert forall|k: int| 0 <= k < end.len() implies {
            &&& (#[trigger] end[k]).1 < i + 1
            &&& end[k].0@ == prefix_of(routes, end[k].1 as int)
        } by {
            if k < at {
                assert(end[k] == start[k]);
            } else if k > at {
                assert(end[k] == start[k - 1]);
            }
        }
        assert forall|k: int, m: int| 0 <= k < m < end.len() implies goes_first(
            routes,
            (#[trigger] end[k]).1 as int,
            (#[trigger] end[m]).1 as int,
        ) by {
            let a = if k < at {
                k
            } else {
                k - 1
            };
            let b = if m < at {
                m
            } else {
                m - 1
            };
            if k == at {
                assert(end[m] == start[b]);
                assert(start[b].0@.len() < len);
            } else if m == at {
                assert(end[k] == start[a]);
                assert(start[a].0@.len() >= len);
            } else {
                assert(end[k] == start[a]);
                assert(end[m] == start[b]);
                assert(goes_first(routes, start[a].1 as int, start[b].1 as int));
            }
        }
        assert forall|j: int| 0 <= j < i + 1 implies #[trigger] listed(end, j) by {
            if j == i {
                assert(end[at as int].1 == j);
            } else {
                assert(listed(start, j));
                let k = choose|k: int| 0 <= k < start.len() && (#[trigger] start[k]).1 == j;
                assert(end[if k < at {
                    k
                } else {
                    k + 1
                }].1 == j);
            }
        }
    }
}

/// Prefix match on path-segment boundaries: `/api/users` matches `/api/users` and
/// `/api/users/1` but not `/api/usersX`. Returns what remains.
pub fn match_prefix(prefix: &str, path: &str) -> (tail: Option<String>)
    ensures
        tail is Some == tail_of(prefix@, path@) is Some,
        tail is Some ==> tail->0@ == tail_of(prefix@, path@)->0,
{
    if text::eq(prefix, "/") {
        return Some(path.to_string());
    }
    if text::eq(path, prefix) {
        return Some("/".to_string());
    }
    match text::strip_prefix(path, prefix) {
        None => None,
        Some(rest) => {
            let v = text::chars_of(rest);
            if v.len() > 0 && v[0] == '/' {
                Some(rest.to_string())
            } else {
                None
            }
        },
    }
}

/// Two prefixes of equal length that match the same path are the same prefix.
proof fn lemma_same_length_same_prefix(a: Seq<char>, b: Seq<char>, path: Seq<char>)
    requires
        tail_of(a, path) is Some,
        tail_of(b, path) is Some,
        a.len() == b.len() > 0,
        a[0] == '/',
        b[0] == '/',
    ensures
        a == b,
{
    reveal_strlit("/");
    if a.len() == 1 {
        assert(a =~= b);
    } else {
        assert("/"@.len() == 1);
        assert(path.subrange(0, path.len() as int) =~= path);
        assert(a =~= path.subrange(0, a.len() as int));
        assert(b =~= path.subrange(0, b.len() as int));
    }
}

/// The prefix of a valid route starts with a slash.
proof fn lemma_prefix_starts_with_slash(routes: Seq<Route>, i: int)
    requires
        crate::config::route_problem(routes, i) is None,
    ensures
        prefix_of(routes, i).len() > 0,
        prefix_of(routes, i)[0] == '/',
{
    let path = routes[i].path@;
    let cut = text::without_end_slashes(path);
    text::lemma_without_end_slashes(path);
    reveal_strlit("/");
    if cut.len() > 0 {
        assert(path.subrange(0, cut.len() as int)[0] == path[0]);
    }
}

/// Law: the most specific route wins whatever order the routes are declared in. Of
/// all routes that match a path, the one it is routed to has the longest prefix,
/// and in a valid configuration every other has a strictly shorter one.
pub proof fn law_longest_prefix_wins(config: Config, path: Seq<char>, i: int, j: int)
    requires
        crate::config::is_valid(config),
        routed_to(config.routes@, path, i),
        0 <= j < config.routes@.len(),
        j != i,
        route_matches(config.routes@, j, path),
    ensures
        prefix_of(config.routes@, j).len() < prefix_of(config.routes@, i).len(),
{
    let routes = config.routes@;
    assert(goes_first(routes, i, j));
    if prefix_of(routes, i).len() == prefix_of(routes, j).len() {
        assert(crate::config::route_problem(routes, i) is None);
        assert(crate::config::route_problem(routes, j) is None);
        lemma_prefix_starts_with_slash(routes, i);
        lemma_prefix_starts_with_slash(routes, j);
        lemma_same_length_same_prefix(prefix_of(routes, i), prefix_of(routes, j), path);
        crate::config::law_valid_paths_are_distinct(config, i, j);
    }
}

/// Law: a path is routed to at most one route.
pub proof fn law_routing_is_unambiguous(routes: Seq<Route>, path: Seq<char>, i: int, j: int)
    requires
        routed_to(routes, path, i),
        routed_to(routes, path, j),
    ensures
        i == j,
{
    if i != j {
        assert(goes_first(routes, i, j));
        assert(goes_first(routes, j, i));
    }
}

/// Law: a prefix matches only on segment boundaries. It matches a path that merely
/// continues its last segment only if it is the root.
pub proof fn law_segment_boundary(prefix: Seq<char>, more: Seq<char>)
    requires
        prefix != "/"@,
        more.len() > 0,
    ensures
        tail_of(prefix, prefix + more) == (if more[0] == '/' {
            Some(more)
        } else {
            None
        }),
{
    let path = prefix + more;
    assert(path.skip(prefix.len() as int) =~= more);
    assert(path.subrange(0, prefix.len() as int) =~= prefix);
}

/// Law: what a match leaves. The root leaves the whole path, a prefix that is the
/// path leaves the root, and any other match leaves what follows the prefix, which
/// begins with a slash.
pub proof fn law_what_a_match_leaves(prefix: Seq<char>, path: Seq<char>)
    ensures
        tail_of(seq!['/'], path) == Some(path),
        prefix != seq!['/'] ==> tail_of(prefix, prefix) == Some(seq!['/']),
        prefix != seq!['/'] && path != prefix && tail_of(prefix, path) is Some ==> path == prefix
            + tail_of(prefix, path)->0 && tail_of(prefix, path)->0[0] == '/',
        prefix != seq!['/'] && !prefix.is_prefix_of(path) ==> tail_of(prefix, path) is None,
{
    reveal_strlit("/");
    assert("/"@ =~= seq!['/']);
    if prefix.is_prefix_of(path) {
        assert(path =~= prefix + path.skip(prefix.len() as int));
    }
    if path == prefix {
        assert(path.subrange(0, path.len() as int) =~= path);
    }
}

/// The one of the first `n` routes that goes first among those that match.
proof fn lemma_some_route_goes_first(routes: Seq<Route>, path: Seq<char>, n: int) -> (i: int)
    requires
        0 <= n <= routes.len(),
        exists|j: int| 0 <= j < n && #[trigger] route_matches(routes, j, path),
    ensures
        0 <= i < n,
        route_matches(routes, i, path),
        forall|j: int|
            0 <= j < n && j != i && #[trigger] route_matches(routes, j, path) ==> goes_first(
                routes,
                i,
                j,
            ),
    decreases n,
{
    if exists|j: int| 0 <= j < n - 1 && #[trigger] route_matches(routes, j, path) {
        let i = lemma_some_route_goes_first(routes, path, n - 1);
        if route_matches(routes, n - 1, path) && goes_first(routes, n - 1, i) {
            n - 1
        } else {
            i
        }
    } else {
        n - 1
    }
}

/// Law: a path that any route matches is routed, and to one whose prefix is as long as
/// that of any other that matches.
pub proof fn law_a_matching_route_is_found(routes: Seq<Route>, path: Seq<char>, j: int)
    requires
        0 <= j < routes.len(),
        route_matches(routes, j, path),
    ensures
        exists|i: int| #[trigger]
            routed_to(routes, path, i) && prefix_of(routes, i).len() >= prefix_of(routes, j).len(),
{
    let i = lemma_some_route_goes_first(routes, path, routes.len() as int);
    assert(routed_to(routes, path, i));
    if i != j {
        assert(goes_first(routes, i, j));
    }
}

/// Law: a route matches its own path, with or without end slashes on either side, and
/// every path below it, of which it leaves the part below.
pub proof fn law_configured_paths_match(
    routes: Seq<Route>,
    i: int,
    path: Seq<char>,
    slashes: nat,
    below: Seq<char>,
)
    requires
        0 <= i < routes.len(),
        path.len() > 0,
        path.last() != '/',
        routes[i].path@ == path + Seq::new(slashes, |k: int| '/'),
    ensures
        route_matches(routes, i, path),
        route_matches(routes, i, path + seq!['/'] + below),
        tail_of(prefix_of(routes, i), path + seq!['/'] + below) == Some(seq!['/'] + below),
        prefix_of(routes, i).len() == path.len(),
{
    crate::config::law_end_slashes_do_not_count(path, slashes);
    reveal_strlit("/");
    assert("/"@.last() == '/');
    let more = seq!['/'] + below;
    assert(path + seq!['/'] + below =~= path + more);
    law_segment_boundary(path, more);
}

} // verus!

//! The upstream side of a route: what a forwarded request looks like, which target
//! it goes to, and how failures are handled.

use vstd::prelude::*;

use crate::error::{ErrorView, GatewayError};
use crate::router::{law_segment_boundary, tail_of};
use crate::text;
use crate::uri;
use crate::uri::{parsed_uri, UriParts};

pub mod balance;
pub mod breaker;
pub mod health;
pub mod retry;
pub mod target;

verus! {

/// The largest request body that is buffered: 2 MiB.
pub const MAX_BODY_BYTES: usize = 2097152;

/// The path and query that is forwarded. With `strip_prefix` it is what remains
/// after the route's prefix, with the query put back on; without, it is what the
/// client sent.
pub open spec fn forwarded_path(
    strip_prefix: bool,
    tail: Seq<char>,
    path_and_query: Option<Seq<char>>,
    query: Option<Seq<char>>,
) -> Seq<char> {
    if strip_prefix {
        match query {
            Some(q) => tail + "?"@ + q,
            None => tail,
        }
    } else {
        match path_and_query {
            Some(pq) => pq,
            None => "/"@,
        }
    }
}

/// The view of an optional string.
pub open spec fn opt_view(s: Option<&str>) -> Option<Seq<char>> {
    match s {
        Some(t) => Some(t@),
        None => None,
    }
}

/// Executable form of [`forwarded_path`].
pub fn forward_path(
    strip_prefix: bool,
    tail: &str,
    path_and_query: Option<&str>,
    query: Option<&str>,
) -> (s: String)
    ensures
        s@ == forwarded_path(strip_prefix, tail@, opt_view(path_and_query), opt_view(query)),
        !strip_prefix && path_and_query is Some ==> s@ == path_and_query->0@,
        strip_prefix && query is None ==> s@ == tail@,
        strip_prefix && query is Some ==> s@ == tail@ + "?"@ + query->0@,
{
    if strip_prefix {
        let mut s = tail.to_string();
        if let Some(q) = query {
            s.append("?");
            s.append(q);
        }
        s
    } else {
        match path_and_query {
            Some(pq) => pq.to_string(),
            None => "/".to_string(),
        }
    }
}

/// The URI of a forwarded request: the target's base URL without its end slashes,
/// then the forwarded path.
pub open spec fn forwarded_uri(base: Seq<char>, path: Seq<char>) -> Seq<char> {
    text::without_end_slashes(base) + path
}

/// Executable form of [`forwarded_uri`].
pub fn forward_uri(base: &str, path: &str) -> (s: String)
    ensures
        s@ == forwarded_uri(base@, path@),
{
    let mut s = text::trim_end_slashes(base).to_string();
    s.append(path);
    s
}

/// The `Host` a target is addressed by, given what its URI parses to.
pub open spec fn host_of(
    uri_text: Seq<char>,
    parsed: Result<UriParts, Seq<char>>,
) -> Result<Seq<char>, ErrorView> {
    match parsed {
        Err(why) => Err(
            ErrorView::BadGateway("invalid upstream URI '"@ + uri_text + "': "@ + why),
        ),
        Ok(parts) => match parts.authority {
            Some(a) => Ok(a),
            None => Err(ErrorView::BadGateway("upstream URI '"@ + uri_text + "' has no host"@)),
        },
    }
}

/// The `Host` for a URI, or the error for one that cannot be dialled, from what the
/// URI parses to: its authority, if it has one, or why it does not parse.
pub fn host_or_error(uri_text: &str, parsed: Result<Option<&str>, String>) -> (r: Result<
    String,
    GatewayError,
>)
    ensures
        match parsed {
            Err(why) => r is Err && r->Err_0@ == ErrorView::BadGateway(
                "invalid upstream URI '"@ + uri_text@ + "': "@ + why@,
            ),
            Ok(Some(a)) => r is Ok && r->Ok_0@ == a@,
            Ok(None) => r is Err && r->Err_0@ == ErrorView::BadGateway(
                "upstream URI '"@ + uri_text@ + "' has no host"@,
            ),
        },
{
    match parsed {
        Ok(Some(a)) => Ok(a.to_string()),
        Ok(None) => {
            let mut s = "upstream URI '".to_string();
            s.append(uri_text);
            s.append("' has no host");
            Err(GatewayError::BadGateway(s))
        },
        Err(why) => {
            let mut s = "invalid upstream URI '".to_string();
            s.append(uri_text);
            s.append("': ");
            s.append(why.as_str());
            Err(GatewayError::BadGateway(s))
        },
    }
}

/// The `Host` presented to a target: its own authority, not the client's.
pub fn target_host(uri_text: &str) -> (r: Result<String, GatewayError>)
    ensures
        r is Ok == host_of(uri_text@, parsed_uri(uri_text@)) is Ok,
        r is Ok ==> r->Ok_0@ == host_of(uri_text@, parsed_uri(uri_text@))->Ok_0,
        r is Err ==> r->Err_0@ == host_of(uri_text@, parsed_uri(uri_text@))->Err_0,
{
    match uri::parse_uri(uri_text) {
        Ok(u) => host_or_error(uri_text, Ok(uri::authority_of(&u))),
        Err(why) => host_or_error(uri_text, Err(why)),
    }
}

/// A buffered body with one more chunk, or nothing if it is larger than is buffered.
pub open spec fn with_chunk(buffer: Seq<u8>, chunk: Seq<u8>) -> Option<Seq<u8>> {
    if buffer.len() + chunk.len() <= MAX_BODY_BYTES {
        Some(buffer + chunk)
    } else {
        None
    }
}

/// Add a chunk to the buffered request body, unless the body would be larger than
/// is buffered.
pub fn buffer_chunk(buffer: &mut Vec<u8>, chunk: &[u8]) -> (r: Result<(), GatewayError>)
    requires
        old(buffer)@.len() <= MAX_BODY_BYTES,
    ensures
        r is Ok <==> with_chunk(old(buffer)@, chunk@) is Some,
        r is Ok ==> final(buffer)@ == with_chunk(old(buffer)@, chunk@)->0,
        r is Err ==> r->Err_0@ == ErrorView::PayloadTooLarge && final(buffer)@ == old(buffer)@,
        final(buffer)@.len() <= MAX_BODY_BYTES,
{
    if chunk.len() > MAX_BODY_BYTES - buffer.len() {
        return Err(GatewayError::PayloadTooLarge);
    }
    let ghost start = buffer@;
    let mut i: usize = 0;
    while i < chunk.len()
        invariant
            i <= chunk@.len(),
            buffer@ == start + chunk@.take(i as int),
        decreases chunk@.len() - i,
    {
        buffer.push(chunk[i]);
        assert(start + chunk@.take(i + 1) =~= (start + chunk@.take(i as int)).push(
            chunk@[i as int],
        ));
        i += 1;
    }
    assert(chunk@.take(chunk@.len() as int) =~= chunk@);
    Ok(())
}

/// The buffered body after a run of chunks, or nothing if it is too large.
pub open spec fn buffered(chunks: Seq<Seq<u8>>) -> Option<Seq<u8>>
    decreases chunks.len(),
{
    if chunks.len() == 0 {
        Some(Seq::empty())
    } else {
        match buffered(chunks.drop_last()) {
            Some(b) => with_chunk(b, chunks.last()),
            None => None,
        }
    }
}

/// Law: a body is buffered whole if it is not larger than 2 MiB, and refused
/// otherwise, however it is cut into chunks.
pub proof fn law_body_cap(chunks: Seq<Seq<u8>>)
    ensures
        buffered(chunks) == (if chunks.flatten().len() <= MAX_BODY_BYTES {
            Some(chunks.flatten())
        } else {
            None
        }),
    decreases chunks.len(),
{
    if chunks.len() == 0 {
        assert(chunks.flatten() =~= Seq::<u8>::empty());
    } else {
        law_body_cap(chunks.drop_last());
        chunks.drop_last().lemma_flatten_push(chunks.last());
        assert(chunks.drop_last().push(chunks.last()) =~= chunks);
    }
}

/// Law: without stripping, whatever path and query the client sent is forwarded as it
/// is: neither the tail nor whether there is a query makes a difference. A request
/// without a path is for the root.
pub proof fn law_unstripped_path_is_what_was_sent(
    tail: Seq<char>,
    other_tail: Seq<char>,
    sent: Seq<char>,
    query: Option<Seq<char>>,
    other_query: Option<Seq<char>>,
)
    ensures
        forwarded_path(false, tail, Some(sent), query) == sent,
        forwarded_path(false, tail, None, query) == "/"@,
        forwarded_path(false, tail, Some(sent), query) == forwarded_path(
            false,
            other_tail,
            Some(sent),
            other_query,
        ),
{
}

/// Law: with stripping, exactly the tail is forwarded if there is no query, and the
/// tail with the query put back on otherwise, whatever the path was before.
pub proof fn law_stripped_path_is_the_tail(
    tail: Seq<char>,
    sent: Option<Seq<char>>,
    query: Seq<char>,
)
    ensures
        forwarded_path(true, tail, sent, None) == tail,
        forwarded_path(true, tail, sent, Some(query)) == tail + seq!['?'] + query,
{
    reveal_strlit("?");
    assert("?"@ =~= seq!['?']);
}

/// Law: stripping takes off the route's prefix and nothing else. A path that goes on
/// after the prefix is forwarded from there on, query and all; the prefix itself is
/// forwarded as the root.
pub proof fn law_strip_prefix(prefix: Seq<char>, rest: Seq<char>, query: Seq<char>)
    requires
        prefix != "/"@,
        rest.len() > 0,
        rest[0] == '/',
    ensures
        tail_of(prefix, prefix + rest) is Some,
        forwarded_path(true, tail_of(prefix, prefix + rest)->0, Some(prefix + rest), None) == rest,
        forwarded_path(
            true,
            tail_of(prefix, prefix + rest)->0,
            Some(prefix + rest + seq!['?'] + query),
            Some(query),
        ) == rest + seq!['?'] + query,
        tail_of(prefix, prefix) is Some,
        forwarded_path(true, tail_of(prefix, prefix)->0, Some(prefix), None) == "/"@,
{
    law_segment_boundary(prefix, rest);
    law_stripped_path_is_the_tail(rest, None, query);
}

/// Law: stripping a prefix forwards what remains with the query kept; not stripping
/// forwards what the client sent.
pub proof fn law_query_is_preserved(tail: Seq<char>, path: Seq<char>, query: Seq<char>)
    ensures
        forwarded_path(true, tail, Some(path + "?"@ + query), Some(query)) == tail + "?"@ + query,
        forwarded_path(false, tail, Some(path + "?"@ + query), Some(query)) == path + "?"@ + query,
{
}

/// Law: the query survives. Whether or not the prefix is stripped, what is forwarded
/// of a path with a query ends in that query.
pub proof fn law_query_survives(
    strip_prefix: bool,
    tail: Seq<char>,
    path: Seq<char>,
    query: Seq<char>,
)
    ensures
        forwarded_path(strip_prefix, tail, Some(path + seq!['?'] + query), Some(query)) == (if strip_prefix {
            tail
        } else {
            path
        }) + seq!['?'] + query,
{
    law_stripped_path_is_the_tail(tail, None, query);
}

/// Law: the forwarded URI is the base, however many slashes it ends in, with the path
/// right behind it.
pub proof fn law_forwarded_uri(base: Seq<char>, slashes: nat, path: Seq<char>)
    requires
        base.len() > 0,
        base.last() != '/',
    ensures
        forwarded_uri(base + Seq::new(slashes, |i: int| '/'), path) == base + path,
        target::probe_target(base + Seq::new(slashes, |i: int| '/'), path) == base + path,
{
    text::law_end_slashes(base, slashes);
}

/// Law: a target is addressed by the authority of its URI; a URI without one, or one
/// that does not parse, is a bad gateway.
pub proof fn law_host_is_the_authority(uri_text: Seq<char>, parts: UriParts, why: Seq<char>)
    ensures
        parts.authority is Some ==> host_of(uri_text, Ok(parts)) == Ok::<Seq<char>, ErrorView>(
            parts.authority->0,
        ),
        parts.authority is None ==> (host_of(uri_text, Ok(parts)) matches Err(e)
            && e.reply().status == 502),
        host_of(uri_text, Err(why)) matches Err(e) && e.reply().status == 502,
{
}

} // verus!

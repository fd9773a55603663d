//! HTTP header fields: what a [`hyper::HeaderMap`] holds, and the rewriting rules
//! that apply to every forwarded message.

use vstd::prelude::*;
use vstd::utf8::encode_utf8;

use crate::text;

verus! {

/// [`hyper::HeaderMap`], whose contents are given by [`fields`].
#[verifier::external_type_specification]
#[verifier::external_body]
#[verifier::reject_recursive_types(T)]
pub struct ExHeaderMap<T>(hyper::HeaderMap<T>);

/// [`hyper::header::HeaderName`], whose contents are given by [`name_text`].
#[verifier::external_type_specification]
#[verifier::external_body]
pub struct ExHeaderName(hyper::header::HeaderName);

/// [`hyper::header::HeaderValue`], whose contents are given by [`value_bytes`].
#[verifier::external_type_specification]
#[verifier::external_body]
pub struct ExHeaderValue(hyper::header::HeaderValue);

/// Header fields by lower-case name, each with its values in order.
pub type Fields = Map<Seq<char>, Seq<Seq<u8>>>;

/// The contents of a header map.
pub uninterp spec fn fields(h: hyper::HeaderMap) -> Fields;

/// The lower-case text of a header name.
pub uninterp spec fn name_text(n: hyper::header::HeaderName) -> Seq<char>;

/// The bytes of a header value.
pub uninterp spec fn value_bytes(v: hyper::header::HeaderValue) -> Seq<u8>;

/// The number of distinct names.
pub open spec fn name_count(f: Fields) -> nat {
    f.dom().len()
}

/// A header map with this many names can always take one more. Past it, an
/// insertion may be refused: it depends on how the names are spread by their hashes.
pub const MAX_NAMES: usize = 6553;

/// The characters of a header name: a token of RFC 7230.
pub open spec fn is_token_char(c: char) -> bool {
    ||| '0' <= c <= '9'
    ||| 'A' <= c <= 'Z'
    ||| 'a' <= c <= 'z'
    ||| c == '!' || c == '#' || c == '$' || c == '%' || c == '&' || c == '\''
    ||| c == '*' || c == '+' || c == '-' || c == '.' || c == '^' || c == '_'
    ||| c == '`' || c == '|' || c == '~'
}

/// Whether `s` can be a header name.
pub open spec fn is_name(s: Seq<char>) -> bool {
    &&& 0 < s.len() <= 65535
    &&& forall|i: int| 0 <= i < s.len() ==> is_token_char(#[trigger] s[i])
}

/// Whether `s` can be a header value: no control characters but the tab.
pub open spec fn is_value(s: Seq<char>) -> bool {
    let bytes = encode_utf8(s);
    forall|i: int|
        0 <= i < bytes.len() ==> (#[trigger] bytes[i] >= 32 && bytes[i] != 127) || bytes[i] == 9
}

/// Calls `hyper::header::HeaderName::from_bytes`, which accepts a token of at most
/// 65535 bytes and keeps it in lower case.
#[verifier::external_body]
pub(crate) fn parse_name(s: &str) -> (n: Option<hyper::header::HeaderName>)
    ensures
        n is Some <==> is_name(s@),
        n is Some ==> name_text(n->0) == text::lower(s@),
{
    hyper::header::HeaderName::from_bytes(s.as_bytes()).ok()
}

/// Calls `hyper::header::HeaderValue::from_str`, which refuses a control character
/// other than the tab and otherwise keeps the bytes.
#[verifier::external_body]
pub(crate) fn parse_value(s: &str) -> (v: Option<hyper::header::HeaderValue>)
    ensures
        v is Some <==> is_value(s@),
        v is Some ==> value_bytes(v->0) == encode_utf8(s@),
{
    hyper::header::HeaderValue::from_str(s).ok()
}

/// Calls `hyper::HeaderMap::get` with a string: the first value of that name, in
/// whatever case the name is given.
#[verifier::external_body]
pub(crate) fn first_value<'a>(h: &'a hyper::HeaderMap, name: &str) -> (v: Option<
    &'a hyper::header::HeaderValue,
>)
    ensures
        v is Some <==> (is_name(name@) && fields(*h).dom().contains(text::lower(name@))),
        v is Some ==> fields(*h)[text::lower(name@)].len() > 0 && value_bytes(*v->0) == fields(
            *h,
        )[text::lower(name@)][0],
{
    h.get(name)
}

/// Calls `hyper::header::HeaderValue::as_bytes`.
#[verifier::external_body]
pub(crate) fn bytes_of(v: &hyper::header::HeaderValue) -> (b: &[u8])
    ensures
        b@ == value_bytes(*v),
{
    v.as_bytes()
}

/// Calls `hyper::HeaderMap::remove` with a parsed name: every value of that name
/// goes, and nothing else. A header map holds finitely many names.
#[verifier::external_body]
pub(crate) fn remove_name(h: &mut hyper::HeaderMap, name: &hyper::header::HeaderName)
    ensures
        fields(*final(h)).dom().finite(),
        fields(*final(h)) == fields(*old(h)).remove(name_text(*name)),
{
    h.remove(name);
}

/// Calls `hyper::HeaderMap::try_insert`: the name then has that one value, or the
/// map refuses for want of room and holds what it held. A map of at most
/// [`MAX_NAMES`] names takes it; of a larger one nothing more is said. The names are
/// finitely many.
#[verifier::external_body]
pub(crate) fn insert_value(
    h: &mut hyper::HeaderMap,
    name: hyper::header::HeaderName,
    value: hyper::header::HeaderValue,
) -> (done: bool)
    ensures
        fields(*final(h)).dom().finite(),
        fields(*final(h)) == if done {
            fields(*old(h)).insert(name_text(name), seq![value_bytes(value)])
        } else {
            fields(*old(h))
        },
        name_count(fields(*old(h))) <= MAX_NAMES ==> done,
{
    h.try_insert(name, value).is_ok()
}

/// `f` without every field of that name; `f` itself when the name is no header
/// name.
pub open spec fn without_field(f: Fields, name: Seq<char>) -> Fields {
    if is_name(name) {
        f.remove(text::lower(name))
    } else {
        f
    }
}

/// `f` with one field of that name and value in place of any it had; `f` itself
/// when either half cannot stand in a header.
pub open spec fn with_field(f: Fields, name: Seq<char>, value: Seq<char>) -> Fields {
    if is_name(name) && is_value(value) {
        f.insert(text::lower(name), seq![encode_utf8(value)])
    } else {
        f
    }
}

/// Where two header maps differ in one name at most, so do their counts.
proof fn lemma_count(before: Fields, after: Fields, name: Seq<char>)
    requires
        after.dom().finite(),
        before.dom().insert(name) =~= after.dom().insert(name),
    ensures
        before.dom().finite(),
        name_count(after) <= name_count(before) + 1,
        !after.dom().contains(name) ==> name_count(after) <= name_count(before),
{
    let all = after.dom().insert(name);
    if before.dom().contains(name) {
        assert(before.dom() =~= all);
    } else {
        assert(before.dom() =~= all.remove(name));
    }
}

/// Remove every field of that name, if it is a header name at all.
pub fn drop_field(h: &mut hyper::HeaderMap, name: &str)
    ensures
        fields(*final(h)) == without_field(fields(*old(h)), name@),
        name_count(fields(*final(h))) <= name_count(fields(*old(h))),
{
    if let Some(n) = parse_name(name) {
        remove_name(h, &n);
        proof {
            lemma_count(fields(*old(h)), fields(*h), name_text(n));
        }
    }
}

/// Set a field to one value, unless the name or the value cannot stand in a header.
/// `false`, and no change, where the map has no room.
pub fn set_field(h: &mut hyper::HeaderMap, name: &str, value: &str) -> (done: bool)
    ensures
        fields(*final(h)) == if done {
            with_field(fields(*old(h)), name@, value@)
        } else {
            fields(*old(h))
        },
        name_count(fields(*old(h))) <= MAX_NAMES ==> done,
        name_count(fields(*final(h))) <= name_count(fields(*old(h))) + 1,
{
    if let Some(n) = parse_name(name) {
        if let Some(v) = parse_value(value) {
            let ghost key = name_text(n);
            let done = insert_value(h, n, v);
            proof {
                lemma_count(fields(*old(h)), fields(*h), key);
            }
            return done;
        }
    }
    true
}

/// `f` without the fields of the first `i` names.
pub open spec fn without_fields(f: Fields, names: Seq<Seq<char>>, i: int) -> Fields
    decreases i,
{
    if i <= 0 {
        f
    } else {
        without_field(without_fields(f, names, i - 1), names[i - 1])
    }
}

/// Remove the fields of every name listed.
pub fn drop_fields(h: &mut hyper::HeaderMap, names: &Vec<String>)
    ensures
        fields(*final(h)) == without_fields(
            fields(*old(h)),
            text::views(names@),
            names@.len() as int,
        ),
        name_count(fields(*final(h))) <= name_count(fields(*old(h))),
{
    let ghost start = fields(*h);
    let ghost listed = text::views(names@);
    let mut i: usize = 0;
    while i < names.len()
        invariant
            i <= names@.len(),
            listed == text::views(names@),
            fields(*h) == without_fields(start, listed, i as int),
            name_count(fields(*h)) <= name_count(fields(*old(h))),
        decreases names@.len() - i,
    {
        drop_field(h, names[i].as_str());
        assert(listed[i as int] == names@[i as int]@);
        i += 1;
    }
}

/// RFC 7230 hop-by-hop headers, which a proxy must not forward end to end.
pub open spec fn hop_by_hop(name: Seq<char>) -> bool {
    ||| name == "connection"@
    ||| name == "keep-alive"@
    ||| name == "proxy-connection"@
    ||| name == "proxy-authenticate"@
    ||| name == "proxy-authorization"@
    ||| name == "te"@
    ||| name == "trailer"@
    ||| name == "transfer-encoding"@
    ||| name == "upgrade"@
}

/// Executable form of [`hop_by_hop`], for a name in lower case.
pub fn is_hop_by_hop(name: &str) -> (r: bool)
    ensures
        r == hop_by_hop(name@),
{
    text::eq(name, "connection") || text::eq(name, "keep-alive") || text::eq(
        name,
        "proxy-connection",
    ) || text::eq(name, "proxy-authenticate") || text::eq(name, "proxy-authorization") || text::eq(
        name,
        "te",
    ) || text::eq(name, "trailer") || text::eq(name, "transfer-encoding") || text::eq(
        name,
        "upgrade",
    )
}

/// `f` without the hop-by-hop fields.
pub open spec fn end_to_end(f: Fields) -> Fields {
    f.remove_keys(Set::new(|name: Seq<char>| hop_by_hop(name)))
}

/// A name of lower-case letters and hyphens is a header name in lower case.
proof fn lemma_plain_name(name: Seq<char>)
    requires
        0 < name.len() <= 65535,
        forall|i: int| 0 <= i < name.len() ==> ('a' <= #[trigger] name[i] <= 'z' || name[i] == '-'),
    ensures
        is_name(name),
        text::lower(name) == name,
{
    assert(text::lower(name) =~= name);
}

/// The fixed names of this module are header names in lower case.
proof fn lemma_fixed_names()
    ensures
        forall|name: Seq<char>| #[trigger]
            hop_by_hop(name) ==> is_name(name) && text::lower(name) == name,
        is_name("host"@) && text::lower("host"@) == "host"@,
        is_name("content-length"@) && text::lower("content-length"@) == "content-length"@,
        is_name("content-type"@) && text::lower("content-type"@) == "content-type"@,
{
    reveal_strlit("connection");
    reveal_strlit("keep-alive");
    reveal_strlit("proxy-connection");
    reveal_strlit("proxy-authenticate");
    reveal_strlit("proxy-authorization");
    reveal_strlit("te");
    reveal_strlit("trailer");
    reveal_strlit("transfer-encoding");
    reveal_strlit("upgrade");
    reveal_strlit("host");
    reveal_strlit("content-length");
    reveal_strlit("content-type");
    assert forall|name: Seq<char>| #[trigger] hop_by_hop(name) implies is_name(name) && text::lower(
        name,
    ) == name by {
        lemma_plain_name(name);
    }
    lemma_plain_name("host"@);
    lemma_plain_name("content-length"@);
    lemma_plain_name("content-type"@);
}

/// Remove the hop-by-hop fields, as is done for every message that is relayed.
pub fn strip_hop_by_hop(h: &mut hyper::HeaderMap)
    ensures
        fields(*final(h)) == end_to_end(fields(*old(h))),
        name_count(fields(*final(h))) <= name_count(fields(*old(h))),
{
    let ghost start = fields(*h);
    proof {
        lemma_fixed_names();
        assert(hop_by_hop("connection"@));
        assert(hop_by_hop("keep-alive"@));
        assert(hop_by_hop("proxy-connection"@));
        assert(hop_by_hop("proxy-authenticate"@));
        assert(hop_by_hop("proxy-authorization"@));
        assert(hop_by_hop("te"@));
        assert(hop_by_hop("trailer"@));
        assert(hop_by_hop("transfer-encoding"@));
        assert(hop_by_hop("upgrade"@));
    }
    drop_field(h, "connection");
    drop_field(h, "keep-alive");
    drop_field(h, "proxy-connection");
    drop_field(h, "proxy-authenticate");
    drop_field(h, "proxy-authorization");
    drop_field(h, "te");
    drop_field(h, "trailer");
    drop_field(h, "transfer-encoding");
    drop_field(h, "upgrade");
    assert(fields(*h) =~= end_to_end(start));
}

/// What is kept of a client's fields: the end-to-end ones but for `Host`, which is
/// to name the target, and `Content-Length`, which is computed anew.
pub open spec fn kept(f: Fields) -> Fields {
    end_to_end(f).remove("host"@).remove("content-length"@)
}

/// The fields of a forwarded request: what is kept, with `Host` naming the target.
pub open spec fn forwarded(f: Fields, authority: Seq<char>) -> Fields {
    with_field(kept(f), "host"@, authority)
}

/// Turn the fields of a client's request into those sent to the target with this
/// authority. `false` where the map has no room for `Host`, which is then missing.
pub fn forward_fields(h: &mut hyper::HeaderMap, authority: &str) -> (done: bool)
    ensures
        fields(*final(h)) == if done {
            forwarded(fields(*old(h)), authority@)
        } else {
            kept(fields(*old(h)))
        },
        name_count(fields(*old(h))) <= MAX_NAMES ==> done,
{
    proof {
        lemma_fixed_names();
    }
    strip_hop_by_hop(h);
    drop_field(h, "host");
    drop_field(h, "content-length");
    set_field(h, "host", authority)
}

/// Law: a forwarded request carries no hop-by-hop field, and its `Host` is the
/// target's authority alone, whatever the client sent.
pub proof fn law_forwarded_is_clean(f: Fields, authority: Seq<char>, name: Seq<char>)
    requires
        is_value(authority),
    ensures
        hop_by_hop(name) ==> !forwarded(f, authority).dom().contains(name),
        forwarded(f, authority).dom().contains("host"@),
        forwarded(f, authority)["host"@] == seq![encode_utf8(authority)],
{
    lemma_fixed_names();
    assert(!hop_by_hop("host"@)) by {
        reveal_strlit("connection");
        reveal_strlit("keep-alive");
        reveal_strlit("proxy-connection");
        reveal_strlit("proxy-authenticate");
        reveal_strlit("proxy-authorization");
        reveal_strlit("te");
        reveal_strlit("trailer");
        reveal_strlit("transfer-encoding");
        reveal_strlit("upgrade");
        reveal_strlit("host");
        assert("host"@[0] == 'h');
    }
}

/// Law: forwarding leaves every other end-to-end field as the client sent it.
pub proof fn law_forwarded_keeps_the_rest(f: Fields, authority: Seq<char>, name: Seq<char>)
    requires
        !hop_by_hop(name),
        name != "host"@,
        name != "content-length"@,
    ensures
        forwarded(f, authority).dom().contains(name) == f.dom().contains(name),
        f.dom().contains(name) ==> forwarded(f, authority)[name] == f[name],
{
    lemma_fixed_names();
}

/// Law: the hop-by-hop fields are these nine and no others. A relayed message has none
/// of them and every other field as it was.
pub proof fn law_relayed_fields(f: Fields, name: Seq<char>)
    ensures
        ({
            let dropped = name == "connection"@ || name == "keep-alive"@ || name
                == "proxy-connection"@ || name == "proxy-authenticate"@ || name
                == "proxy-authorization"@ || name == "te"@ || name == "trailer"@ || name
                == "transfer-encoding"@ || name == "upgrade"@;
            &&& end_to_end(f).dom().contains(name) <==> f.dom().contains(name) && !dropped
            &&& end_to_end(f).dom().contains(name) ==> end_to_end(f)[name] == f[name]
        }),
{
}

/// Law: a forwarded request has no `Content-Length` of the client's, nor any of the
/// hop-by-hop fields.
pub proof fn law_framing_is_not_forwarded(f: Fields, authority: Seq<char>)
    ensures
        !forwarded(f, authority).dom().contains("content-length"@),
        !forwarded(f, authority).dom().contains("connection"@),
        !forwarded(f, authority).dom().contains("transfer-encoding"@),
        !is_value(authority) ==> !forwarded(f, authority).dom().contains("host"@),
{
    lemma_fixed_names();
    assert("host"@.len() == 4 && "content-length"@.len() == 14 && "connection"@.len() == 10
        && "transfer-encoding"@.len() == 17) by {
        reveal_strlit("host");
        reveal_strlit("content-length");
        reveal_strlit("connection");
        reveal_strlit("transfer-encoding");
    }
    assert(hop_by_hop("connection"@) && hop_by_hop("transfer-encoding"@));
}

/// Law: a field is set to the one value in place of all it had, under its name in
/// lower case, and no other field changes.
pub proof fn law_set_field(f: Fields, name: Seq<char>, value: Seq<char>, other: Seq<char>)
    requires
        is_name(name),
        is_value(value),
        other != text::lower(name),
    ensures
        with_field(f, name, value).dom().contains(text::lower(name)),
        with_field(f, name, value)[text::lower(name)] == seq![encode_utf8(value)],
        with_field(f, name, value).dom().contains(other) <==> f.dom().contains(other),
        f.dom().contains(other) ==> with_field(f, name, value)[other] == f[other],
        !without_field(f, name).dom().contains(text::lower(name)),
        without_field(f, name).dom().contains(other) <==> f.dom().contains(other),
        f.dom().contains(other) ==> without_field(f, name)[other] == f[other],
{
}

/// Law: what cannot stand in a header changes nothing: no name may be empty or hold a
/// blank or a colon, and no value may hold a line end.
pub proof fn law_what_cannot_stand_in_a_header(f: Fields, name: Seq<char>, value: Seq<char>, i: int)
    requires
        0 <= i < name.len() && (name[i] == ' ' || name[i] == ':') || name.len() == 0,
    ensures
        with_field(f, name, value) == f,
        without_field(f, name) == f,
{
}

/// Law: every name that is listed is removed, wherever it stands in the list and
/// whatever its case, and nothing else is.
pub proof fn law_listed_fields_are_removed(f: Fields, names: Seq<Seq<char>>, name: Seq<char>, n: int)
    requires
        0 <= n <= names.len(),
    ensures
        without_fields(f, names, n).dom().contains(name) <==> f.dom().contains(name) && forall|
            i: int,
        |
            0 <= i < n && is_name(#[trigger] names[i]) ==> text::lower(names[i]) != name,
        without_fields(f, names, n).dom().contains(name) ==> without_fields(f, names, n)[name]
            == f[name],
    decreases n,
{
    if n > 0 {
        law_listed_fields_are_removed(f, names, name, n - 1);
        assert(is_name(names[n - 1]) || !is_name(names[n - 1]));
    }
}

/// The names of the fields that describe a body are header names in lower case, and
/// what marks one as JSON is a header value.
pub proof fn lemma_content_names()
    ensures
        is_name("content-type"@) && text::lower("content-type"@) == "content-type"@,
        is_name("content-length"@) && text::lower("content-length"@) == "content-length"@,
        is_name("transfer-encoding"@) && text::lower("transfer-encoding"@) == "transfer-encoding"@,
        "content-type"@ != "content-length"@ && "content-type"@ != "transfer-encoding"@,
        is_value("application/json"@),
{
    lemma_fixed_names();
    assert(hop_by_hop("transfer-encoding"@));
    reveal_strlit("content-type");
    reveal_strlit("content-length");
    reveal_strlit("transfer-encoding");
    assert("content-type"@.len() == 12 && "content-length"@.len() == 14
        && "transfer-encoding"@.len() == 17);
    reveal_strlit("application/json");
    law_printable_values("application/json"@);
}

/// Law: a text of printable ASCII characters can be a header value.
pub proof fn law_printable_values(s: Seq<char>)
    requires
        forall|i: int| 0 <= i < s.len() ==> ' ' <= #[trigger] s[i] <= '~',
    ensures
        is_value(s),
{
    assert(vstd::utf8::is_ascii_chars(s));
    vstd::utf8::is_ascii_chars_encode_utf8(s);
}

} // verus!

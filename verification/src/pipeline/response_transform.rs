//! Response transform: rewrite the headers and wrap the body of an upstream
//! response.
//!
//! It applies to genuine upstream responses only, never to a reply the gateway
//! makes itself. A body that is empty or not JSON is embedded as a JSON string:
//! wrapping is a matter of presentation and never fails a good response.

use vstd::prelude::*;
use vstd::utf8::{decode_utf8, encode_utf8, valid_utf8};

use crate::config::ResponseTransform;
use crate::headers;
use crate::headers::{fields, name_count, with_field, without_field, Fields, MAX_NAMES};
use crate::json;
use crate::json::{encoded, parsed, tree, Json};
use crate::pipeline::request_transform::{rewrite_headers, rewrites_to, rewritten};
use crate::text;
use crate::yaml;
use crate::yaml::{number_text, yaml_entries, yaml_tree, Yaml, YamlNode, YamlNumber};

verus! {

/// The stage that applies a route's response transform. It is in a response chain
/// only if the route has one.
pub struct ResponseTransformStage;

/// The text `String::from_utf8_lossy` makes of bytes.
pub uninterp spec fn lossy_text(bytes: Seq<u8>) -> Seq<char>;

/// Calls `String::from_utf8_lossy`: the text of valid UTF-8, and otherwise a text
/// in which what is not valid is replaced.
#[verifier::external_body]
fn lossy_string(bytes: &[u8]) -> (s: String)
    ensures
        s@ == lossy_text(bytes@),
        valid_utf8(bytes@) ==> s@ == decode_utf8(bytes@),
{
    String::from_utf8_lossy(bytes).into_owned()
}

/// What `$body` stands for: the JSON value of the body, or its text as a JSON string
/// when it is empty or not JSON.
pub open spec fn body_value_of(bytes: Seq<u8>) -> Json {
    if bytes.len() == 0 {
        Json::Str(Seq::empty())
    } else {
        match parsed(bytes) {
            Some(v) => v,
            None => Json::Str(lossy_text(bytes)),
        }
    }
}

/// Executable form of [`body_value_of`].
pub fn body_value(bytes: &[u8]) -> (v: serde_json::Value)
    ensures
        tree(v) == body_value_of(bytes@),
{
    if bytes.len() == 0 {
        return json::string_value(String::new());
    }
    match json::parse(bytes) {
        Some(v) => v,
        None => json::string_value(lossy_string(bytes)),
    }
}

/// What a string of an envelope stands for.
pub open spec fn placeholder(
    s: Seq<char>,
    body: Json,
    time: Seq<char>,
    route_path: Seq<char>,
) -> Json {
    if s == "$body"@ {
        body
    } else if s == "$response_time"@ {
        Json::Str(time)
    } else if s == "$route_path"@ {
        Json::Str(route_path)
    } else if "$literal:"@.is_prefix_of(s) {
        Json::Str(s.skip("$literal:"@.len() as int))
    } else {
        Json::Str(s)
    }
}

/// The JSON number for a YAML one: JSON has no infinities and no not-a-number, which
/// become null.
pub open spec fn number_json(n: YamlNumber) -> Json {
    match n {
        YamlNumber::Int(i) => Json::Int(i),
        YamlNumber::Float(bits) => if yaml::is_finite(bits) {
            Json::Float(bits)
        } else {
            Json::Null
        },
    }
}

/// The member name for a mapping's key: strings, booleans and numbers as text, and
/// any other key as the empty name.
pub open spec fn key_text(k: Yaml) -> Seq<char> {
    match k {
        Yaml::Str(s) => s,
        Yaml::Bool(b) => if b {
            "true"@
        } else {
            "false"@
        },
        Yaml::Number(n) => number_text(n),
        _ => match yaml::untagged(k) {
            Yaml::Str(s) => s,
            _ => Seq::empty(),
        },
    }
}

/// The JSON value an envelope stands for: placeholders resolved, structure kept, and
/// null for a tagged node.
pub open spec fn enveloped(t: Yaml, body: Json, time: Seq<char>, route_path: Seq<char>) -> Json
    decreases t, 0int,
{
    match t {
        Yaml::Null => Json::Null,
        Yaml::Bool(b) => Json::Bool(b),
        Yaml::Number(n) => number_json(n),
        Yaml::Str(s) => placeholder(s, body, time, route_path),
        Yaml::Sequence(items) => Json::Array(
            enveloped_items(items, body, time, route_path, items.len() as int),
        ),
        Yaml::Mapping(entries) => Json::Object(
            enveloped_entries(entries, body, time, route_path, entries.len() as int),
        ),
        Yaml::Tagged(_) => Json::Null,
    }
}

/// The JSON values of the first `k` items.
pub open spec fn enveloped_items(
    items: Seq<Yaml>,
    body: Json,
    time: Seq<char>,
    route_path: Seq<char>,
    k: int,
) -> Seq<Json>
    decreases items, k,
{
    if k <= 0 || k > items.len() {
        Seq::empty()
    } else {
        enveloped_items(items, body, time, route_path, k - 1).push(
            enveloped(items[k - 1], body, time, route_path),
        )
    }
}

/// The members of the first `k` entries: a later entry replaces an earlier one of
/// the same name.
pub open spec fn enveloped_entries(
    entries: Seq<(Yaml, Yaml)>,
    body: Json,
    time: Seq<char>,
    route_path: Seq<char>,
    k: int,
) -> Map<Seq<char>, Json>
    decreases entries, k,
{
    if k <= 0 || k > entries.len() {
        Map::empty()
    } else {
        enveloped_entries(entries, body, time, route_path, k - 1).insert(
            key_text(entries[k - 1].0),
            enveloped(entries[k - 1].1, body, time, route_path),
        )
    }
}

/// The member name for a mapping's key.
fn key_string(k: &serde_yaml::Value) -> (s: String)
    ensures
        s@ == key_text(yaml_tree(*k)),
{
    match yaml::node(k) {
        YamlNode::Str(s) => s.to_string(),
        YamlNode::Bool(b) => if b {
            "true".to_string()
        } else {
            "false".to_string()
        },
        YamlNode::Number(n) => yaml::number_string(n),
        _ => match yaml::as_text(k) {
            Some(s) => s.to_string(),
            None => String::new(),
        },
    }
}

/// The JSON number for a YAML one.
fn number_value(n: &serde_yaml::Number) -> (v: serde_json::Value)
    ensures
        tree(v) == number_json(yaml::yaml_number(*n)),
{
    match yaml::number_i64(n) {
        Some(i) => json::i64_value(i),
        None => match yaml::number_u64(n) {
            Some(u) => json::u64_value(u),
            None => match yaml::float_value(n) {
                Some(v) => v,
                None => json::null_value(),
            },
        },
    }
}

/// Turn an envelope into a JSON value, its placeholders resolved against this
/// response. It never fails.
pub fn substitute(
    template: &serde_yaml::Value,
    body: &serde_json::Value,
    response_time: &str,
    route_path: &str,
) -> (v: serde_json::Value)
    ensures
        tree(v) == enveloped(yaml_tree(*template), tree(*body), response_time@, route_path@),
    decreases yaml_tree(*template),
{
    match yaml::node(template) {
        YamlNode::Null => json::null_value(),
        YamlNode::Bool(b) => json::bool_value(b),
        YamlNode::Number(n) => number_value(n),
        YamlNode::Tagged(_) => json::null_value(),
        YamlNode::Str(s) => if text::eq(s, "$body") {
            json::copy_of(body)
        } else if text::eq(s, "$response_time") {
            json::string_value(response_time.to_string())
        } else if text::eq(s, "$route_path") {
            json::string_value(route_path.to_string())
        } else {
            match text::strip_prefix(s, "$literal:") {
                Some(rest) => json::string_value(rest.to_string()),
                None => json::string_value(s.to_string()),
            }
        },
        YamlNode::Sequence(items) => {
            let ghost trees = yaml_tree(*template)->Sequence_0;
            let mut out: Vec<serde_json::Value> = Vec::new();
            let mut i: usize = 0;
            while i < items.len()
                invariant
                    i <= items@.len(),
                    yaml_tree(*template) == Yaml::Sequence(trees),
                    trees == items@.map_values(|v: serde_yaml::Value| yaml_tree(v)),
                    out@.map_values(|x: serde_json::Value| tree(x)) == enveloped_items(
                        trees,
                        tree(*body),
                        response_time@,
                        route_path@,
                        i as int,
                    ),
                decreases items@.len() - i,
            {
                assert(yaml_tree(items@[i as int]) == trees[i as int]);
                assert(decreases_to!(yaml_tree(*template) => yaml_tree(*template)->Sequence_0));
                assert(decreases_to!(trees => trees[i as int]));
                let v = substitute(&items[i], body, response_time, route_path);
                let ghost before = out@.map_values(|x: serde_json::Value| tree(x));
                out.push(v);
                assert(out@.map_values(|x: serde_json::Value| tree(x)) =~= before.push(tree(v)));
                i += 1;
            }
            json::array_value(out)
        },
        YamlNode::Mapping(m) => {
            let ghost trees = yaml_entries(*m);
            let entries = yaml::entries_of(m);
            let mut out = json::empty_object();
            let mut i: usize = 0;
            while i < entries.len()
                invariant
                    i <= entries@.len(),
                    yaml_tree(*template) == Yaml::Mapping(trees),
                    trees.len() == entries@.len(),
                    forall|k: int|
                        0 <= k < entries@.len() ==> (
                        yaml_tree(*(#[trigger] entries@[k]).0),
                        yaml_tree(*entries@[k].1),
                    ) == trees[k],
                    tree(out) == Json::Object(
                        enveloped_entries(
                            trees,
                            tree(*body),
                            response_time@,
                            route_path@,
                            i as int,
                        ),
                    ),
                decreases entries@.len() - i,
            {
                let (k, v) = entries[i];
                assert(trees[i as int] == (yaml_tree(*k), yaml_tree(*v)));
                assert(decreases_to!(yaml_tree(*template) => yaml_tree(*template)->Mapping_0));
                assert(decreases_to!(trees => trees[i as int]));
                assert(decreases_to!(trees[i as int] => trees[i as int].1));
                let key = key_string(k);
                let value = substitute(v, body, response_time, route_path);
                *json::member_mut(&mut out, key.as_str()) = value;
                i += 1;
            }
            out
        },
    }
}

/// The envelope of a transform, if it has one.
pub fn body_envelope(rt: &ResponseTransform) -> (t: Option<&serde_yaml::Value>)
    ensures
        t is Some == envelope_of(*rt) is Some,
        t is Some ==> *t->0 == envelope_of(*rt)->0,
{
    match &rt.body {
        Some(b) => b.envelope.as_ref(),
        None => None,
    }
}

/// The envelope of a transform: there is one only with a body transform.
pub open spec fn envelope_of(rt: ResponseTransform) -> Option<serde_yaml::Value> {
    match rt.body {
        Some(b) => b.envelope,
        None => None,
    }
}

/// The number of headers a transform sets.
pub open spec fn headers_set(rt: ResponseTransform) -> nat {
    (match rt.headers {
        Some(ht) => ht.add@.len(),
        None => 0,
    }) + if envelope_of(rt) is Some {
        1nat
    } else {
        0
    }
}

/// `f` without the framing of a body that is about to be replaced.
pub open spec fn unframed(f: Fields) -> Fields {
    without_field(without_field(f, "content-length"@), "transfer-encoding"@)
}

/// The headers after a transform: rewritten as configured and, when the body is
/// wrapped, without the framing of the old body and marked as JSON.
pub open spec fn transformed(
    f: Fields,
    rt: ResponseTransform,
    time: Seq<char>,
) -> Fields {
    let g = match rt.headers {
        Some(ht) => rewritten(f, text::views(ht.remove@), ht.add@, time),
        None => f,
    };
    if envelope_of(rt) is Some {
        with_field(unframed(g), "content-type"@, "application/json"@)
    } else {
        g
    }
}

/// Whether `out` is what the headers may come to: as [`transformed`] says, but for
/// what a crowded map had no room for.
pub open spec fn transforms_to(
    f: Fields,
    rt: ResponseTransform,
    time: Seq<char>,
    out: Fields,
) -> bool {
    exists|g: Fields|
        #[trigger] headers_rewrite_to(f, rt, time, g) && if envelope_of(rt) is Some {
            ||| out == with_field(unframed(g), "content-type"@, "application/json"@)
            ||| out == unframed(g) && name_count(out) > MAX_NAMES
        } else {
            out == g
        }
}

/// Whether `g` is what the header changes of a transform may come to.
pub open spec fn headers_rewrite_to(
    f: Fields,
    rt: ResponseTransform,
    time: Seq<char>,
    g: Fields,
) -> bool {
    match rt.headers {
        Some(ht) => rewrites_to(f, text::views(ht.remove@), ht.add@, time, g),
        None => g == f,
    }
}

/// The body after a transform, if it is wrapped.
pub open spec fn transformed_body(
    bytes: Seq<u8>,
    rt: ResponseTransform,
    time: Seq<char>,
    route_path: Seq<char>,
) -> Option<Seq<u8>> {
    match envelope_of(rt) {
        Some(template) => Some(
            encoded(enveloped(yaml_tree(template), body_value_of(bytes), time, route_path)),
        ),
        None => None,
    }
}

/// Apply a route's transform to an upstream response. The result is the new body,
/// or `None` when the body is left alone; `bytes` is looked at only when there is an
/// envelope. Only a header that finds no room is skipped.
pub fn apply(
    h: &mut hyper::HeaderMap,
    bytes: &[u8],
    rt: &ResponseTransform,
    response_time: &str,
    route_path: &str,
) -> (out: Option<Vec<u8>>)
    ensures
        transforms_to(fields(*old(h)), *rt, response_time@, fields(*final(h))),
        name_count(fields(*old(h))) + headers_set(*rt) <= MAX_NAMES + 1 ==> fields(*final(h))
            == transformed(fields(*old(h)), *rt, response_time@),
        out is Some == transformed_body(bytes@, *rt, response_time@, route_path@) is Some,
        out is Some ==> out->0@ == transformed_body(
            bytes@,
            *rt,
            response_time@,
            route_path@,
        )->0,
{
    if let Some(ht) = &rt.headers {
        rewrite_headers(h, &ht.remove, &ht.add, response_time);
    }
    assert(headers_rewrite_to(fields(*old(h)), *rt, response_time@, fields(*h)));
    match body_envelope(rt) {
        Some(template) => {
            let value = body_value(bytes);
            let wrapped = substitute(template, &value, response_time, route_path);
            let out = json::encode(&wrapped);
            headers::drop_field(h, "content-length");
            headers::drop_field(h, "transfer-encoding");
            headers::set_field(h, "content-type", "application/json");
            out
        },
        None => None,
    }
}

/// Law: an envelope that is `$body` alone leaves the value of the body as it is.
pub proof fn law_bare_body_envelope(body: Json, time: Seq<char>, route_path: Seq<char>)
    ensures
        enveloped(Yaml::Str("$body"@), body, time, route_path) == body,
{
}

/// Law: without an envelope the body is left alone and only the configured header
/// changes are made.
pub proof fn law_no_envelope_keeps_body(
    bytes: Seq<u8>,
    f: Fields,
    rt: ResponseTransform,
    time: Seq<char>,
    route_path: Seq<char>,
)
    requires
        envelope_of(rt) is None,
    ensures
        transformed_body(bytes, rt, time, route_path) is None,
        rt.headers is None ==> transformed(f, rt, time) == f,
{
}

/// Law: what a string of an envelope stands for. The placeholders stand for the body,
/// the time of the response and the path of the route; what follows `$literal:` stands
/// for itself, and so does every text that does not begin with a dollar sign.
pub proof fn law_envelope_placeholders(
    rest: Seq<char>,
    body: Json,
    time: Seq<char>,
    route_path: Seq<char>,
)
    ensures
        enveloped(Yaml::Str("$body"@), body, time, route_path) == body,
        enveloped(Yaml::Str("$response_time"@), body, time, route_path) == Json::Str(time),
        enveloped(Yaml::Str("$route_path"@), body, time, route_path) == Json::Str(route_path),
        enveloped(Yaml::Str("$literal:"@ + rest), body, time, route_path) == Json::Str(rest),
        rest.len() == 0 || rest[0] != '$' ==> enveloped(Yaml::Str(rest), body, time, route_path)
            == Json::Str(rest),
{
    reveal_strlit("$body");
    reveal_strlit("$response_time");
    reveal_strlit("$route_path");
    reveal_strlit("$literal:");
    assert("$body"@[1] == 'b');
    assert("$response_time"@[1] == 'r' && "$response_time"@[2] == 'e');
    assert("$route_path"@[1] == 'r' && "$route_path"@[2] == 'o');
    let p = "$literal:"@;
    assert(p[0] == '$' && p[1] == 'l');
    assert((p + rest)[1] == 'l');
    assert((p + rest).subrange(0, p.len() as int) =~= p);
    assert((p + rest).skip(p.len() as int) =~= rest);
    if p.is_prefix_of(rest) {
        assert(rest.subrange(0, p.len() as int)[0] == rest[0]);
    }
}

/// The values of a sequence's first `k` items.
proof fn lemma_items(items: Seq<Yaml>, body: Json, time: Seq<char>, route_path: Seq<char>, k: int)
    requires
        0 <= k <= items.len(),
    ensures
        enveloped_items(items, body, time, route_path, k).len() == k,
        forall|i: int|
            0 <= i < k ==> #[trigger] enveloped_items(items, body, time, route_path, k)[i]
                == enveloped(items[i], body, time, route_path),
    decreases k,
{
    if k > 0 {
        lemma_items(items, body, time, route_path, k - 1);
    }
}

/// Law: a sequence of an envelope becomes an array of as many items, each of which is
/// what stood in its place.
pub proof fn law_envelope_items(
    items: Seq<Yaml>,
    body: Json,
    time: Seq<char>,
    route_path: Seq<char>,
    i: int,
)
    requires
        0 <= i < items.len(),
    ensures
        enveloped(Yaml::Sequence(items), body, time, route_path) matches Json::Array(out)
            && out.len() == items.len() && out[i] == enveloped(items[i], body, time, route_path),
        enveloped(Yaml::Sequence(Seq::empty()), body, time, route_path) == Json::Array(
            Seq::empty(),
        ),
{
    lemma_items(items, body, time, route_path, items.len() as int);
    lemma_items(Seq::empty(), body, time, route_path, 0);
}

/// What the first `k` entries of a mapping make of a name.
proof fn lemma_entries(
    entries: Seq<(Yaml, Yaml)>,
    body: Json,
    time: Seq<char>,
    route_path: Seq<char>,
    k: int,
    name: Seq<char>,
)
    requires
        0 <= k <= entries.len(),
    ensures
        ({
            let out = enveloped_entries(entries, body, time, route_path, k);
            &&& out.dom().contains(name) <==> exists|i: int|
                0 <= i < k && key_text((#[trigger] entries[i]).0) == name
            &&& forall|i: int|
                (0 <= i < k && key_text((#[trigger] entries[i]).0) == name && (forall|j: int|
                    i < j < k ==> key_text((#[trigger] entries[j]).0) != name)) ==> out[name]
                    == enveloped(entries[i].1, body, time, route_path)
        }),
    decreases k,
{
    if k > 0 {
        lemma_entries(entries, body, time, route_path, k - 1, name);
        let before = enveloped_entries(entries, body, time, route_path, k - 1);
        let out = enveloped_entries(entries, body, time, route_path, k);
        if key_text(entries[k - 1].0) == name {
            assert(out.dom().contains(name));
        } else {
            assert(out.dom().contains(name) == before.dom().contains(name));
            assert forall|i: int|
                (0 <= i < k && key_text((#[trigger] entries[i]).0) == name && (forall|j: int|
                    i < j < k ==> key_text((#[trigger] entries[j]).0) != name)) implies out[name]
                == enveloped(entries[i].1, body, time, route_path) by {
                assert(i < k - 1);
            }
        }
    }
}

/// Law: a mapping of an envelope becomes an object with a member for every entry and
/// no others. Each has the value that stands under its name, of several the last.
pub proof fn law_envelope_members(
    entries: Seq<(Yaml, Yaml)>,
    body: Json,
    time: Seq<char>,
    route_path: Seq<char>,
    i: int,
    name: Seq<char>,
    other: Seq<char>,
)
    requires
        0 <= i < entries.len(),
        entries[i].0 == Yaml::Str(name),
        forall|j: int| i < j < entries.len() ==> key_text((#[trigger] entries[j]).0) != name,
        forall|j: int| 0 <= j < entries.len() ==> key_text((#[trigger] entries[j]).0) != other,
    ensures
        enveloped(Yaml::Mapping(entries), body, time, route_path) matches Json::Object(out)
            && out.dom().contains(name) && out[name] == enveloped(
            entries[i].1,
            body,
            time,
            route_path,
        ) && !out.dom().contains(other),
        enveloped(Yaml::Mapping(Seq::empty()), body, time, route_path) == Json::Object(
            Map::empty(),
        ),
{
    let n = entries.len() as int;
    lemma_entries(entries, body, time, route_path, n, name);
    lemma_entries(entries, body, time, route_path, n, other);
    assert(key_text(entries[i].0) == name);
}

/// Law: the other values of an envelope stand for themselves. A number that JSON has
/// no form for becomes null, and so does whatever has a tag.
pub proof fn law_envelope_scalars(
    b: bool,
    i: int,
    bits: u64,
    body: Json,
    time: Seq<char>,
    route_path: Seq<char>,
)
    ensures
        enveloped(Yaml::Null, body, time, route_path) == Json::Null,
        enveloped(Yaml::Bool(b), body, time, route_path) == Json::Bool(b),
        enveloped(Yaml::Number(YamlNumber::Int(i)), body, time, route_path) == Json::Int(i),
        yaml::is_finite(bits) ==> enveloped(
            Yaml::Number(YamlNumber::Float(bits)),
            body,
            time,
            route_path,
        ) == Json::Float(bits),
        !yaml::is_finite(bits) ==> enveloped(
            Yaml::Number(YamlNumber::Float(bits)),
            body,
            time,
            route_path,
        ) == Json::Null,
        forall|inner: Box<Yaml>| #[trigger]
            enveloped(Yaml::Tagged(inner), body, time, route_path) == Json::Null,
{
}

/// Law: keys that are texts, truth values or numbers are spelt out; of a tagged key the
/// text counts, and a key that is nothing of the kind is the empty name.
pub proof fn law_envelope_keys(name: Seq<char>, n: YamlNumber)
    ensures
        key_text(Yaml::Str(name)) == name,
        key_text(Yaml::Bool(true)) == seq!['t', 'r', 'u', 'e'],
        key_text(Yaml::Bool(false)) == seq!['f', 'a', 'l', 's', 'e'],
        key_text(Yaml::Number(n)) == number_text(n),
        key_text(Yaml::Tagged(Box::new(Yaml::Str(name)))) == name,
        key_text(Yaml::Tagged(Box::new(Yaml::Number(n)))) == Seq::<char>::empty(),
        key_text(Yaml::Null) == Seq::<char>::empty(),
        key_text(Yaml::Sequence(seq![Yaml::Str(name)])) == Seq::<char>::empty(),
{
    reveal_with_fuel(yaml::untagged, 2);
    reveal_strlit("true");
    reveal_strlit("false");
    assert("true"@ =~= seq!['t', 'r', 'u', 'e']);
    assert("false"@ =~= seq!['f', 'a', 'l', 's', 'e']);
}

/// Law: a body that is JSON is embedded as the value it is, any other as a string, and
/// none as the empty string.
pub proof fn law_embedded_bodies(bytes: Seq<u8>)
    requires
        bytes.len() > 0,
    ensures
        parsed(bytes) is Some ==> body_value_of(bytes) == parsed(bytes)->0,
        parsed(bytes) is None ==> body_value_of(bytes) == Json::Str(lossy_text(bytes)),
        body_value_of(Seq::empty()) == Json::Str(Seq::empty()),
{
}

/// Law: a wrapped body is marked as JSON and has no framing of the old body, whatever
/// the upstream sent; every other field is what the header changes make of it.
pub proof fn law_wrapped_body_headers(
    f: Fields,
    rt: ResponseTransform,
    time: Seq<char>,
    name: Seq<char>,
)
    requires
        envelope_of(rt) is Some,
        name != "content-type"@,
        name != "content-length"@,
        name != "transfer-encoding"@,
    ensures
        ({
            let out = transformed(f, rt, time);
            let g = match rt.headers {
                Some(ht) => rewritten(f, text::views(ht.remove@), ht.add@, time),
                None => f,
            };
            &&& out.dom().contains("content-type"@)
            &&& out["content-type"@] == seq![encode_utf8("application/json"@)]
            &&& !out.dom().contains("content-length"@)
            &&& !out.dom().contains("transfer-encoding"@)
            &&& out.dom().contains(name) <==> g.dom().contains(name)
            &&& out.dom().contains(name) ==> out[name] == g[name]
        }),
{
    headers::lemma_content_names();
}

/// Law: with an envelope the new body is the encoding of what the envelope stands for,
/// the route's path and the time of the response being what they are.
pub proof fn law_wrapped_body(
    bytes: Seq<u8>,
    rt: ResponseTransform,
    time: Seq<char>,
    route_path: Seq<char>,
)
    requires
        envelope_of(rt) is Some,
    ensures
        rt.body is Some && rt.body->0.envelope is Some,
        transformed_body(bytes, rt, time, route_path) == Some(
            encoded(
                enveloped(
                    yaml_tree(rt.body->0.envelope->0),
                    body_value_of(bytes),
                    time,
                    route_path,
                ),
            ),
        ),
{
}

} // verus!

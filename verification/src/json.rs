//! JSON values: what a [`serde_json::Value`] holds, and dot-path access to it.

use vstd::prelude::*;

use crate::text;

verus! {

/// [`serde_json::Value`], whose contents are given by [`tree`].
#[verifier::external_type_specification]
#[verifier::external_body]
pub struct ExJsonValue(serde_json::Value);

/// What a JSON value holds. A number is an integer, or a float given by its
/// IEEE 754 bits; the members of an object have no order.
#[verifier::ext_equal]
pub enum Json {
    Null,
    Bool(bool),
    Int(int),
    Float(u64),
    Str(Seq<char>),
    Array(Seq<Json>),
    Object(Map<Seq<char>, Json>),
}

/// The contents of a JSON value.
pub uninterp spec fn tree(v: serde_json::Value) -> Json;

/// What `serde_json::from_slice` reads from the bytes: nothing when they are not
/// one JSON document that it accepts.
pub uninterp spec fn parsed(bytes: Seq<u8>) -> Option<Json>;

/// The bytes `serde_json::to_vec` writes for a value.
pub uninterp spec fn encoded(v: Json) -> Seq<u8>;

/// Calls `serde_json::from_slice`. The result depends on the bytes alone; which
/// bytes are a JSON document, and which value they hold, is left to that function
/// and named by [`parsed`].
#[verifier::external_body]
pub(crate) fn parse(bytes: &[u8]) -> (v: Option<serde_json::Value>)
    ensures
        v is Some == parsed(bytes@) is Some,
        v is Some ==> tree(v->0) == parsed(bytes@)->0,
{
    serde_json::from_slice::<serde_json::Value>(bytes).ok()
}

/// Calls `serde_json::to_vec`, which fails only on a map with keys that are not
/// strings or on a `Serialize` impl that refuses: neither occurs in a `Value`. The
/// bytes depend on the contents alone (object members are written in key order)
/// and are named by [`encoded`].
#[verifier::external_body]
pub(crate) fn encode(v: &serde_json::Value) -> (bytes: Option<Vec<u8>>)
    ensures
        bytes is Some,
        bytes->0@ == encoded(tree(*v)),
{
    serde_json::to_vec(v).ok()
}

/// Calls `serde_json::Value::get` with a string key: the member of that name of an
/// object, and nothing of any other value.
#[verifier::external_body]
pub(crate) fn member<'a>(v: &'a serde_json::Value, key: &str) -> (m: Option<&'a serde_json::Value>)
    ensures
        m is Some <==> (tree(*v) is Object && tree(*v)->Object_0.dom().contains(key@)),
        m is Some ==> tree(*m->0) == tree(*v)->Object_0[key@],
{
    v.get(key)
}

/// Calls `<serde_json::Value as IndexMut<&str>>::index_mut` on an object: a
/// reference to the member of that name, which is put there as null when there is
/// none. The other members stay.
#[verifier::external_body]
pub(crate) fn member_mut<'a>(v: &'a mut serde_json::Value, key: &str) -> (m:
    &'a mut serde_json::Value)
    requires
        tree(*old(v)) is Object,
    ensures
        tree(*m) == (if tree(*old(v))->Object_0.dom().contains(key@) {
            tree(*old(v))->Object_0[key@]
        } else {
            Json::Null
        }),
        tree(*final(v)) == Json::Object(tree(*old(v))->Object_0.insert(key@, tree(*final(m)))),
{
    &mut v[key]
}

/// Calls `serde_json::Value::is_object`.
#[verifier::external_body]
pub(crate) fn is_object(v: &serde_json::Value) -> (r: bool)
    ensures
        r == (tree(*v) is Object),
{
    v.is_object()
}

/// Calls `serde_json::Map::new` and makes an object of it: one without members.
#[verifier::external_body]
pub(crate) fn empty_object() -> (v: serde_json::Value)
    ensures
        tree(v) == Json::Object(Map::empty()),
{
    serde_json::Value::Object(serde_json::Map::new())
}

/// Calls `<serde_json::Value as Default>::default`, which is null.
#[verifier::external_body]
pub(crate) fn null_value() -> (v: serde_json::Value)
    ensures
        tree(v) == Json::Null,
{
    serde_json::Value::default()
}

/// Calls `<serde_json::Value as From<String>>::from`.
#[verifier::external_body]
pub(crate) fn string_value(s: String) -> (v: serde_json::Value)
    ensures
        tree(v) == Json::Str(s@),
{
    serde_json::Value::from(s)
}

/// Calls `<serde_json::Value as From<bool>>::from`.
#[verifier::external_body]
pub(crate) fn bool_value(b: bool) -> (v: serde_json::Value)
    ensures
        tree(v) == Json::Bool(b),
{
    serde_json::Value::from(b)
}

/// Calls `<serde_json::Value as From<i64>>::from`.
#[verifier::external_body]
pub(crate) fn i64_value(i: i64) -> (v: serde_json::Value)
    ensures
        tree(v) == Json::Int(i as int),
{
    serde_json::Value::from(i)
}

/// Calls `<serde_json::Value as From<u64>>::from`.
#[verifier::external_body]
pub(crate) fn u64_value(u: u64) -> (v: serde_json::Value)
    ensures
        tree(v) == Json::Int(u as int),
{
    serde_json::Value::from(u)
}

/// Calls `<serde_json::Value as From<Vec<Value>>>::from`: an array of the elements
/// in their order.
#[verifier::external_body]
pub(crate) fn array_value(items: Vec<serde_json::Value>) -> (v: serde_json::Value)
    ensures
        tree(v) == Json::Array(items@.map_values(|x: serde_json::Value| tree(x))),
{
    serde_json::Value::from(items)
}

/// Calls `<serde_json::Value as Clone>::clone`.
#[verifier::external_body]
pub(crate) fn copy_of(v: &serde_json::Value) -> (c: serde_json::Value)
    ensures
        tree(c) == tree(*v),
{
    v.clone()
}

/// The value reached from `t` by taking the member named by each segment in turn.
pub open spec fn at_segments(t: Json, segments: Seq<Seq<char>>) -> Option<Json>
    decreases segments.len(),
{
    if segments.len() == 0 {
        Some(t)
    } else if t is Object && t->Object_0.dom().contains(segments[0]) {
        at_segments(t->Object_0[segments[0]], segments.drop_first())
    } else {
        None
    }
}

/// The value at a dot-path: the value itself when the path is empty.
pub open spec fn at_path(t: Json, path: Seq<char>) -> Option<Json> {
    if path.len() == 0 {
        Some(t)
    } else {
        at_segments(t, text::split_on(path, '.'))
    }
}

/// The members of an object; no members for any other value.
pub open spec fn members(t: Json) -> Map<Seq<char>, Json> {
    if t is Object {
        t->Object_0
    } else {
        Map::empty()
    }
}

/// `t` with `v` put at the place the segments lead to. A value on the way that is
/// not an object is replaced by an object, and a missing one is created.
pub open spec fn with_segments(t: Json, segments: Seq<Seq<char>>, v: Json) -> Json
    decreases segments.len(),
{
    if segments.len() == 0 {
        v
    } else {
        let inner = if members(t).dom().contains(segments[0]) {
            members(t)[segments[0]]
        } else {
            Json::Null
        };
        Json::Object(
            members(t).insert(segments[0], with_segments(inner, segments.drop_first(), v)),
        )
    }
}

/// `t` with `v` put at a dot-path: `v` itself when the path is empty.
pub open spec fn with_path(t: Json, path: Seq<char>, v: Json) -> Json {
    if path.len() == 0 {
        v
    } else {
        with_segments(t, text::split_on(path, '.'), v)
    }
}

/// Read the JSON value at a dot-path (`"user.id"`, `"a.b.c"`). `None` if a segment
/// is absent or leads into something that is not an object. An empty path yields
/// the root.
pub fn json_get<'a>(root: &'a serde_json::Value, path: &str) -> (r: Option<&'a serde_json::Value>)
    ensures
        r is Some == at_path(tree(*root), path@) is Some,
        r is Some ==> tree(*r->0) == at_path(tree(*root), path@)->0,
{
    if path.is_empty() {
        return Some(root);
    }
    let segments = text::split(path, '.');
    let ghost names = text::views(segments@);
    let mut cur: &serde_json::Value = root;
    let mut i: usize = 0;
    assert(names.skip(0) =~= names);
    while i < segments.len()
        invariant
            path@.len() > 0,
            names == text::views(segments@),
            names == text::split_on(path@, '.'),
            i <= names.len(),
            at_segments(tree(*root), names) == at_segments(tree(*cur), names.skip(i as int)),
        decreases segments@.len() - i,
    {
        assert(names.skip(i as int)[0] == segments@[i as int]@);
        assert(names.skip(i as int).drop_first() =~= names.skip(i + 1));
        match member(cur, segments[i].as_str()) {
            Some(next) => {
                cur = next;
            },
            None => {
                return None;
            },
        }
        i += 1;
    }
    Some(cur)
}

/// Write `value` at a dot-path in `root`, creating objects on the way as needed. A
/// value on the way that is not an object is replaced by an object. An empty path
/// replaces the whole root.
pub fn json_set(root: &mut serde_json::Value, path: &str, value: serde_json::Value)
    ensures
        tree(*final(root)) == with_path(tree(*old(root)), path@, tree(value)),
{
    if path.is_empty() {
        *root = value;
        return ;
    }
    let segments = text::split(path, '.');
    proof {
        text::lemma_split_nonempty(path@, '.');
        let names = text::views(segments@);
        assert(names.skip(0) =~= names);
    }
    set_from(root, &segments, 0, value);
}

/// Write `value` at the place the segments from `i` on lead to.
fn set_from(
    cur: &mut serde_json::Value,
    segments: &Vec<String>,
    i: usize,
    value: serde_json::Value,
)
    requires
        i <= segments@.len(),
    ensures
        tree(*final(cur)) == with_segments(
            tree(*old(cur)),
            text::views(segments@).skip(i as int),
            tree(value),
        ),
    decreases segments@.len() - i,
{
    let ghost rest = text::views(segments@).skip(i as int);
    if i == segments.len() {
        *cur = value;
        return ;
    }
    let ghost start = members(tree(*cur));
    if !is_object(cur) {
        *cur = empty_object();
    }
    assert(tree(*cur)->Object_0 == start);
    assert(rest[0] == segments@[i as int]@);
    assert(rest.drop_first() =~= text::views(segments@).skip(i + 1));
    let inner = member_mut(cur, segments[i].as_str());
    set_from(inner, segments, i + 1, value);
}

/// Law: what was put at a non-empty dot-path is what is read back there.
pub proof fn law_set_then_get(t: Json, path: Seq<char>, v: Json)
    ensures
        at_path(with_path(t, path, v), path) == Some(v),
{
    if path.len() > 0 {
        lemma_set_then_get(t, text::split_on(path, '.'), v);
    }
}

proof fn lemma_set_then_get(t: Json, segments: Seq<Seq<char>>, v: Json)
    ensures
        at_segments(with_segments(t, segments, v), segments) == Some(v),
    decreases segments.len(),
{
    if segments.len() > 0 {
        let inner = if members(t).dom().contains(segments[0]) {
            members(t)[segments[0]]
        } else {
            Json::Null
        };
        lemma_set_then_get(inner, segments.drop_first(), v);
    }
}

/// Law: writing at one dot-path leaves what another leads to as it was, for any two
/// non-empty paths neither of which leads through the other.
pub proof fn law_set_leaves_other_members(t: Json, path: Seq<char>, other: Seq<char>, v: Json)
    requires
        path.len() > 0,
        other.len() > 0,
        !text::split_on(path, '.').is_prefix_of(text::split_on(other, '.')),
        !text::split_on(other, '.').is_prefix_of(text::split_on(path, '.')),
    ensures
        at_path(with_path(t, path, v), other) == at_path(t, other),
{
    lemma_set_leaves_other(t, text::split_on(path, '.'), text::split_on(other, '.'), v);
}

proof fn lemma_set_leaves_other(t: Json, a: Seq<Seq<char>>, b: Seq<Seq<char>>, v: Json)
    requires
        !a.is_prefix_of(b),
        !b.is_prefix_of(a),
    ensures
        at_segments(with_segments(t, a, v), b) == at_segments(t, b),
    decreases a.len(),
{
    assert(a.len() > 0) by {
        if a.len() == 0 {
            assert(a =~= b.subrange(0, 0));
        }
    }
    assert(b.len() > 0) by {
        if b.len() == 0 {
            assert(b =~= a.subrange(0, 0));
        }
    }
    if a[0] == b[0] {
        let (x, y) = (a.drop_first(), b.drop_first());
        assert(!x.is_prefix_of(y)) by {
            if x.is_prefix_of(y) {
                assert(a =~= b.subrange(0, a.len() as int)) by {
                    assert forall|i: int| 0 < i < a.len() implies a[i] == b[i] by {
                        assert(x[i - 1] == y.subrange(0, x.len() as int)[i - 1]);
                    }
                }
            }
        }
        assert(!y.is_prefix_of(x)) by {
            if y.is_prefix_of(x) {
                assert(b =~= a.subrange(0, b.len() as int)) by {
                    assert forall|i: int| 0 < i < b.len() implies a[i] == b[i] by {
                        assert(y[i - 1] == x.subrange(0, y.len() as int)[i - 1]);
                    }
                }
            }
        }
        assert(y.len() > 0) by {
            if y.len() == 0 {
                assert(y =~= x.subrange(0, 0));
            }
        }
        let inner = if members(t).dom().contains(a[0]) {
            members(t)[a[0]]
        } else {
            Json::Null
        };
        lemma_set_leaves_other(inner, x, y, v);
    }
}

/// Whether `nodes` are what is met by going from member to member: each is an object
/// whose member of the next name is the next node.
pub open spec fn is_walk(nodes: Seq<Json>, names: Seq<Seq<char>>) -> bool {
    &&& nodes.len() == names.len() + 1
    &&& forall|k: int|
        0 <= k < names.len() ==> (#[trigger] nodes[k]) is Object
            && nodes[k]->Object_0.dom().contains(names[k]) && nodes[k]->Object_0[names[k]]
            == nodes[k + 1]
}

/// Whether names can stand in a dot-path: none holds a dot, and together they are not
/// empty.
pub open spec fn are_names(names: Seq<Seq<char>>) -> bool {
    &&& names.len() > 0
    &&& forall|k: int| 0 <= k < names.len() ==> !(#[trigger] names[k]).contains('.')
    &&& names.len() > 1 || names[0].len() > 0
}

/// A joined path is not empty.
proof fn lemma_path_nonempty(names: Seq<Seq<char>>)
    requires
        are_names(names),
    ensures
        text::joined(names, seq!['.']).len() > 0,
        text::split_on(text::joined(names, seq!['.']), '.') == names,
{
    text::law_join_then_split(names, '.');
}

/// A walk ends where its names lead.
proof fn lemma_walk(nodes: Seq<Json>, names: Seq<Seq<char>>)
    requires
        is_walk(nodes, names),
    ensures
        at_segments(nodes[0], names) == Some(nodes.last()),
    decreases names.len(),
{
    if names.len() > 0 {
        let (n, m) = (nodes.drop_first(), names.drop_first());
        assert(nodes[0] is Object);
        assert forall|k: int| 0 <= k < m.len() implies (#[trigger] n[k]) is Object
            && n[k]->Object_0.dom().contains(m[k]) && n[k]->Object_0[m[k]] == n[k + 1] by {
            assert(nodes[k + 1] is Object);
        }
        lemma_walk(n, m);
    }
}

/// A walk that cannot go on leads nowhere.
proof fn lemma_walk_ends(nodes: Seq<Json>, names: Seq<Seq<char>>, missing: Seq<char>)
    requires
        is_walk(nodes, names),
        !(nodes.last() is Object && nodes.last()->Object_0.dom().contains(missing)),
    ensures
        at_segments(nodes[0], names.push(missing)) is None,
    decreases names.len(),
{
    if names.len() > 0 {
        let (n, m) = (nodes.drop_first(), names.drop_first());
        assert(nodes[0] is Object);
        assert forall|k: int| 0 <= k < m.len() implies (#[trigger] n[k]) is Object
            && n[k]->Object_0.dom().contains(m[k]) && n[k]->Object_0[m[k]] == n[k + 1] by {
            assert(nodes[k + 1] is Object);
        }
        assert(names.push(missing).drop_first() =~= m.push(missing));
        lemma_walk_ends(n, m, missing);
    }
}

/// Law: a dot-path leads from member to member: names joined by dots lead to what is
/// met by taking the member of each name in turn.
pub proof fn law_path_walks_members(nodes: Seq<Json>, names: Seq<Seq<char>>)
    requires
        is_walk(nodes, names),
        are_names(names),
    ensures
        at_path(nodes[0], text::joined(names, seq!['.'])) == Some(nodes.last()),
{
    lemma_path_nonempty(names);
    lemma_walk(nodes, names);
}

/// Law: a dot-path leads nowhere once a member is missing, or where it would go into
/// something that is no object.
pub proof fn law_path_needs_every_member(
    nodes: Seq<Json>,
    names: Seq<Seq<char>>,
    missing: Seq<char>,
)
    requires
        is_walk(nodes, names),
        are_names(names.push(missing)),
        !(nodes.last() is Object && nodes.last()->Object_0.dom().contains(missing)),
    ensures
        at_path(nodes[0], text::joined(names.push(missing), seq!['.'])) is None,
{
    lemma_path_nonempty(names.push(missing));
    lemma_walk_ends(nodes, names, missing);
}

/// Law: the empty path is the value itself, to read and to write.
pub proof fn law_empty_path_is_the_root(t: Json, v: Json)
    ensures
        at_path(t, Seq::empty()) == Some(t),
        with_path(t, Seq::empty(), v) == v,
{
}

/// Law: a path of one name writes that member of an object and no other; what is no
/// object becomes one with that member alone.
pub proof fn law_one_name_writes_one_member(t: Json, name: Seq<char>, v: Json)
    requires
        name.len() > 0,
        !name.contains('.'),
    ensures
        t is Object ==> with_path(t, name, v) == Json::Object(t->Object_0.insert(name, v)),
        t !is Object ==> with_path(t, name, v) == Json::Object(Map::empty().insert(name, v)),
{
    text::law_split(Seq::empty(), '.', name);
    reveal_with_fuel(with_segments, 2);
    assert(seq![name].drop_first() =~= Seq::<Seq<char>>::empty());
}

} // verus!

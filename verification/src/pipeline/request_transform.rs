//! Request transform: rewrite the headers and remap the JSON body of a request
//! before it is forwarded.
//!
//! Everything here is fed input of the configuration and of the client, so nothing
//! fails: a header that cannot stand in a message is skipped, and a body that is
//! not JSON passes through untouched.

use vstd::prelude::*;
use vstd::utf8::encode_utf8;

use crate::config::HeaderTransform;
use crate::headers;
use crate::headers::{
    fields, is_name, is_value, name_count, with_field, without_fields, Fields, MAX_NAMES,
};
use crate::json;
use crate::json::{
    are_names, at_path, encoded, is_walk, members, parsed, tree, with_path, Json,
};
use crate::pipeline::transform::{resolve_value, resolved};
use crate::text;
use crate::text::{EntryView, StringMap};

verus! {

/// Header rewriting for the request direction.
pub struct RequestTransformStage {
    /// Header names to set, with the values to resolve.
    pub add: StringMap,
    /// Header names to remove.
    pub remove: Vec<String>,
}

/// `f` with the first `i` entries set, their values resolved against `time`.
pub open spec fn with_fields(f: Fields, entries: Seq<EntryView>, time: Seq<char>, i: int) -> Fields
    decreases i,
{
    if i <= 0 {
        f
    } else {
        with_field(
            with_fields(f, entries, time, i - 1),
            entries[i - 1].0,
            resolved(entries[i - 1].1, time),
        )
    }
}

/// Removals first, then additions: a name in both ends with the added value.
pub open spec fn rewritten(
    f: Fields,
    remove: Seq<Seq<char>>,
    add: Seq<EntryView>,
    time: Seq<char>,
) -> Fields {
    with_fields(without_fields(f, remove, remove.len() as int), add, time, add.len() as int)
}

/// `f` with the first `i` entries set but for those skipped.
pub open spec fn with_fields_but(
    f: Fields,
    entries: Seq<EntryView>,
    time: Seq<char>,
    skipped: Set<int>,
    i: int,
) -> Fields
    decreases i,
{
    if i <= 0 {
        f
    } else {
        let before = with_fields_but(f, entries, time, skipped, i - 1);
        if skipped.contains(i - 1) {
            before
        } else {
            with_field(before, entries[i - 1].0, resolved(entries[i - 1].1, time))
        }
    }
}

/// Whether every skipped one of the first `i` entries found more names than a map is
/// sure to have room for.
pub open spec fn crowded_out(
    f: Fields,
    entries: Seq<EntryView>,
    time: Seq<char>,
    skipped: Set<int>,
    i: int,
) -> bool {
    forall|k: int| #[trigger]
        skipped.contains(k) ==> 0 <= k < i && name_count(
            with_fields_but(f, entries, time, skipped, k),
        ) > MAX_NAMES
}

/// Whether `g` is what a rewriting of `f` may come to: every removal made, and every
/// addition but for those a crowded map had no room for.
pub open spec fn rewrites_to(
    f: Fields,
    remove: Seq<Seq<char>>,
    add: Seq<EntryView>,
    time: Seq<char>,
    g: Fields,
) -> bool {
    let rest = without_fields(f, remove, remove.len() as int);
    exists|skipped: Set<int>|
        #[trigger] crowded_out(rest, add, time, skipped, add.len() as int) && g
            == with_fields_but(rest, add, time, skipped, add.len() as int)
}

/// With nothing skipped, every entry is set.
proof fn lemma_nothing_skipped(f: Fields, entries: Seq<EntryView>, time: Seq<char>, i: int)
    ensures
        with_fields_but(f, entries, time, Set::empty(), i) == with_fields(f, entries, time, i),
    decreases i,
{
    if i > 0 {
        lemma_nothing_skipped(f, entries, time, i - 1);
    }
}

/// What is skipped later makes no difference to the entries before.
proof fn lemma_skipped_later(
    f: Fields,
    entries: Seq<EntryView>,
    time: Seq<char>,
    skipped: Set<int>,
    later: int,
    i: int,
)
    requires
        i <= later,
    ensures
        with_fields_but(f, entries, time, skipped.insert(later), i) == with_fields_but(
            f,
            entries,
            time,
            skipped,
            i,
        ),
    decreases i,
{
    if i > 0 {
        lemma_skipped_later(f, entries, time, skipped, later, i - 1);
    }
}

/// Remove the listed headers, then set the others. Removals are always made; an
/// addition that finds no room is skipped, and `false` says that there was one.
pub fn rewrite_headers(
    h: &mut hyper::HeaderMap,
    remove: &Vec<String>,
    add: &StringMap,
    time: &str,
) -> (done: bool)
    ensures
        done ==> fields(*final(h)) == rewritten(
            fields(*old(h)),
            text::views(remove@),
            add@,
            time@,
        ),
        rewrites_to(fields(*old(h)), text::views(remove@), add@, time@, fields(*final(h))),
        name_count(fields(*old(h))) + add@.len() <= MAX_NAMES + 1 ==> done,
        name_count(fields(*final(h))) <= name_count(fields(*old(h))) + add@.len(),
{
    headers::drop_fields(h, remove);
    let ghost start = fields(*h);
    let ghost mut skipped: Set<int> = Set::empty();
    let mut done: bool = true;
    let mut i: usize = 0;
    while i < add.len()
        invariant
            i <= add@.len(),
            start == without_fields(
                fields(*old(h)),
                text::views(remove@),
                text::views(remove@).len() as int,
            ),
            done ==> skipped == Set::<int>::empty(),
            fields(*h) == with_fields_but(start, add@, time@, skipped, i as int),
            crowded_out(start, add@, time@, skipped, i as int),
            name_count(fields(*h)) <= name_count(fields(*old(h))) + i,
            name_count(fields(*old(h))) + add@.len() <= MAX_NAMES + 1 ==> done,
        decreases add@.len() - i,
    {
        let value = resolve_value(add.value(i), time);
        let ok = headers::set_field(h, add.key(i), value.as_str());
        if !ok {
            done = false;
            proof {
                let more = skipped.insert(i as int);
                assert forall|k: int| #[trigger] more.contains(k) implies 0 <= k < i + 1
                    && name_count(with_fields_but(start, add@, time@, more, k)) > MAX_NAMES by {
                    if k != i {
                        assert(skipped.contains(k));
                    }
                    lemma_skipped_later(start, add@, time@, skipped, i as int, k);
                }
                lemma_skipped_later(start, add@, time@, skipped, i as int, i as int);
                skipped = more;
            }
        }
        i += 1;
    }
    proof {
        lemma_nothing_skipped(start, add@, time@, add@.len() as int);
    }
    done
}

impl RequestTransformStage {
    /// The stage for a configured header transform.
    pub fn new(h: &HeaderTransform) -> (s: RequestTransformStage)
        requires
            h.add.valid(),
        ensures
            s.add@ == h.add@,
            s.add.valid(),
            text::views(s.remove@) == text::views(h.remove@),
    {
        RequestTransformStage {
            add: h.add.copy_map(),
            remove: text::copy_strings(h.remove.as_slice()),
        }
    }

    /// Rewrite the headers of a request. `false` says that an addition found no
    /// room and was skipped.
    pub fn rewrite(&self, h: &mut hyper::HeaderMap, request_time: &str) -> (done: bool)
        ensures
            done ==> fields(*final(h)) == rewritten(
                fields(*old(h)),
                text::views(self.remove@),
                self.add@,
                request_time@,
            ),
            rewrites_to(
                fields(*old(h)),
                text::views(self.remove@),
                self.add@,
                request_time@,
                fields(*final(h)),
            ),
            name_count(fields(*old(h))) + self.add@.len() <= MAX_NAMES + 1 ==> done,
    {
        rewrite_headers(h, &self.remove, &self.add, request_time)
    }
}

/// What a source of a body mapping stands for: `$literal:<v>` for the string `<v>`,
/// `$request_time` for the timestamp, anything else for what that dot-path leads to
/// in the incoming body.
pub open spec fn source_value(incoming: Json, source: Seq<char>, time: Seq<char>) -> Option<Json> {
    if "$literal:"@.is_prefix_of(source) {
        Some(Json::Str(source.skip("$literal:"@.len() as int)))
    } else if source == "$request_time"@ {
        Some(Json::Str(time))
    } else {
        at_path(incoming, source)
    }
}

/// The body that the first `i` entries of a mapping build. A source that is missing
/// is skipped.
pub open spec fn mapped(
    incoming: Json,
    mapping: Seq<EntryView>,
    time: Seq<char>,
    i: int,
) -> Json
    decreases i,
{
    if i <= 0 {
        Json::Object(Map::empty())
    } else {
        let before = mapped(incoming, mapping, time, i - 1);
        match source_value(incoming, mapping[i - 1].1, time) {
            Some(v) => with_path(before, mapping[i - 1].0, v),
            None => before,
        }
    }
}

/// Build the body a mapping makes of an incoming JSON value.
pub fn map_body(incoming: &serde_json::Value, mapping: &StringMap, request_time: &str) -> (out:
    serde_json::Value)
    ensures
        tree(out) == mapped(tree(*incoming), mapping@, request_time@, mapping@.len() as int),
{
    let mut out = json::empty_object();
    let mut i: usize = 0;
    while i < mapping.len()
        invariant
            i <= mapping@.len(),
            tree(out) == mapped(tree(*incoming), mapping@, request_time@, i as int),
        decreases mapping@.len() - i,
    {
        let source = mapping.value(i);
        match text::strip_prefix(source, "$literal:") {
            Some(literal) => {
                json::json_set(&mut out, mapping.key(i), json::string_value(literal.to_string()));
            },
            None => {
                if text::eq(source, "$request_time") {
                    json::json_set(
                        &mut out,
                        mapping.key(i),
                        json::string_value(request_time.to_string()),
                    );
                } else if let Some(v) = json::json_get(incoming, source) {
                    json::json_set(&mut out, mapping.key(i), json::copy_of(v));
                }
            },
        }
        i += 1;
    }
    out
}

/// Build a **new** JSON body from the incoming one. `None` means that the body is
/// to be kept as it is: there is nothing to map, or it is not JSON.
pub fn apply_body_mapping(body: &[u8], mapping: &StringMap, request_time: &str) -> (out: Option<
    Vec<u8>,
>)
    ensures
        out is Some <==> (mapping@.len() > 0 && parsed(body@) is Some),
        out is Some ==> out->0@ == encoded(
            mapped(parsed(body@)->0, mapping@, request_time@, mapping@.len() as int),
        ),
{
    if mapping.len() == 0 {
        return None;
    }
    match json::parse(body) {
        Some(incoming) => {
            let out = map_body(&incoming, mapping, request_time);
            json::encode(&out)
        },
        None => None,
    }
}

/// Whether some of the first `i` entries sets the field of that lower-case name.
pub open spec fn sets_field(
    entries: Seq<EntryView>,
    time: Seq<char>,
    name: Seq<char>,
    i: int,
) -> bool {
    exists|k: int| 0 <= k < i && entry_sets(#[trigger] entries[k], time, name)
}

/// Whether an entry sets the field of that lower-case name: neither half of it is
/// skipped.
pub open spec fn entry_sets(e: EntryView, time: Seq<char>, name: Seq<char>) -> bool {
    is_name(e.0) && is_value(resolved(e.1, time)) && text::lower(e.0) == name
}

/// Whether one of the first `i` names listed is that field's.
pub open spec fn removes_field(names: Seq<Seq<char>>, name: Seq<char>, i: int) -> bool {
    exists|k: int|
        0 <= k < i && is_name(#[trigger] names[k]) && text::lower(names[k]) == name
}

/// Law: additions win. Whatever is removed and whatever the message held, a field
/// that is added ends with the value of the last entry that sets it, and no other.
pub proof fn law_added_header_wins(
    f: Fields,
    remove: Seq<Seq<char>>,
    add: Seq<EntryView>,
    time: Seq<char>,
    k: int,
)
    requires
        0 <= k < add.len(),
        entry_sets(add[k], time, text::lower(add[k].0)),
        forall|j: int|
            k < j < add.len() ==> !entry_sets(#[trigger] add[j], time, text::lower(add[k].0)),
    ensures
        rewritten(f, remove, add, time).dom().contains(text::lower(add[k].0)),
        rewritten(f, remove, add, time)[text::lower(add[k].0)] == seq![
            encode_utf8(resolved(add[k].1, time)),
        ],
{
    let g = without_fields(f, remove, remove.len() as int);
    lemma_later_entries_leave(g, add, time, text::lower(add[k].0), k + 1, add.len() as int);
}

/// Entries that do not set a field leave it as it was.
proof fn lemma_later_entries_leave(
    f: Fields,
    add: Seq<EntryView>,
    time: Seq<char>,
    name: Seq<char>,
    from: int,
    to: int,
)
    requires
        0 <= from <= to <= add.len(),
        forall|j: int| from <= j < to ==> !entry_sets(#[trigger] add[j], time, name),
    ensures
        with_fields(f, add, time, to).dom().contains(name) == with_fields(
            f,
            add,
            time,
            from,
        ).dom().contains(name),
        with_fields(f, add, time, from).dom().contains(name) ==> with_fields(f, add, time, to)[name]
            == with_fields(f, add, time, from)[name],
    decreases to - from,
{
    if from < to {
        lemma_later_entries_leave(f, add, time, name, from, to - 1);
        assert(!entry_sets(add[to - 1], time, name));
    }
}

/// What is left of a field after removals.
proof fn lemma_removed(f: Fields, names: Seq<Seq<char>>, name: Seq<char>, i: int)
    requires
        0 <= i <= names.len(),
    ensures
        without_fields(f, names, i).dom().contains(name) <==> f.dom().contains(name)
            && !removes_field(names, name, i),
        without_fields(f, names, i).dom().contains(name) ==> without_fields(f, names, i)[name]
            == f[name],
    decreases i,
{
    if i > 0 {
        lemma_removed(f, names, name, i - 1);
        let last = names[i - 1];
        if removes_field(names, name, i - 1) {
            let k = choose|k: int|
                0 <= k < i - 1 && is_name(#[trigger] names[k]) && text::lower(names[k]) == name;
            assert(0 <= k < i && is_name(names[k]));
        }
        if is_name(last) && text::lower(last) == name {
            assert(removes_field(names, name, i));
        }
    }
}

/// Entries that do not set a field leave it as it was, whichever of them are skipped.
proof fn lemma_no_entry_sets(
    f: Fields,
    add: Seq<EntryView>,
    time: Seq<char>,
    skipped: Set<int>,
    name: Seq<char>,
    i: int,
)
    requires
        0 <= i <= add.len(),
        forall|j: int| 0 <= j < i ==> !entry_sets(#[trigger] add[j], time, name),
    ensures
        with_fields_but(f, add, time, skipped, i).dom().contains(name) == f.dom().contains(name),
        f.dom().contains(name) ==> with_fields_but(f, add, time, skipped, i)[name] == f[name],
    decreases i,
{
    if i > 0 {
        lemma_no_entry_sets(f, add, time, skipped, name, i - 1);
        assert(!entry_sets(add[i - 1], time, name));
    }
}

/// Law: whatever room there is, a field that is not added is gone if it was to be
/// removed, and otherwise is as it was.
pub proof fn law_other_headers_are_kept_or_removed(
    f: Fields,
    remove: Seq<Seq<char>>,
    add: Seq<EntryView>,
    time: Seq<char>,
    g: Fields,
    name: Seq<char>,
)
    requires
        rewrites_to(f, remove, add, time, g),
        !sets_field(add, time, name, add.len() as int),
    ensures
        g.dom().contains(name) <==> f.dom().contains(name) && !removes_field(
            remove,
            name,
            remove.len() as int,
        ),
        g.dom().contains(name) ==> g[name] == f[name],
{
    let rest = without_fields(f, remove, remove.len() as int);
    lemma_removed(f, remove, name, remove.len() as int);
    assert forall|j: int| 0 <= j < add.len() implies !entry_sets(#[trigger] add[j], time, name) by {
        if entry_sets(add[j], time, name) {
            assert(sets_field(add, time, name, add.len() as int));
        }
    }
    let skipped = choose|skipped: Set<int>|
        #[trigger] crowded_out(rest, add, time, skipped, add.len() as int) && g
            == with_fields_but(rest, add, time, skipped, add.len() as int);
    lemma_no_entry_sets(rest, add, time, skipped, name, add.len() as int);
}

/// Setting a field adds one name at most.
proof fn lemma_one_more(f: Fields, name: Seq<char>, value: Seq<char>)
    requires
        f.dom().finite(),
    ensures
        with_field(f, name, value).dom().finite(),
        name_count(with_field(f, name, value)) <= name_count(f) + 1,
{
}

/// Removing fields adds none.
proof fn lemma_no_more(f: Fields, names: Seq<Seq<char>>, i: int)
    requires
        f.dom().finite(),
    ensures
        without_fields(f, names, i).dom().finite(),
        name_count(without_fields(f, names, i)) <= name_count(f),
    decreases i,
{
    if i > 0 {
        lemma_no_more(f, names, i - 1);
    }
}

/// Law: where there is room for every addition, all of them are made.
pub proof fn law_nothing_is_skipped_with_room(
    f: Fields,
    remove: Seq<Seq<char>>,
    add: Seq<EntryView>,
    time: Seq<char>,
    g: Fields,
)
    requires
        f.dom().finite(),
        rewrites_to(f, remove, add, time, g),
        name_count(f) + add.len() <= MAX_NAMES + 1,
    ensures
        g == rewritten(f, remove, add, time),
{
    let rest = without_fields(f, remove, remove.len() as int);
    lemma_no_more(f, remove, remove.len() as int);
    let skipped = choose|skipped: Set<int>|
        #[trigger] crowded_out(rest, add, time, skipped, add.len() as int) && g
            == with_fields_but(rest, add, time, skipped, add.len() as int);
    assert forall|k: int| !skipped.contains(k) by {
        if skipped.contains(k) {
            lemma_count_with(rest, add, time, skipped, k);
        }
    }
    assert(skipped =~= Set::empty());
    lemma_nothing_skipped(rest, add, time, add.len() as int);
}

/// The first `i` entries add `i` names at most.
proof fn lemma_count_with(
    f: Fields,
    entries: Seq<EntryView>,
    time: Seq<char>,
    skipped: Set<int>,
    i: int,
)
    requires
        f.dom().finite(),
        0 <= i,
    ensures
        with_fields_but(f, entries, time, skipped, i).dom().finite(),
        name_count(with_fields_but(f, entries, time, skipped, i)) <= name_count(f) + i,
    decreases i,
{
    if i > 0 {
        lemma_count_with(f, entries, time, skipped, i - 1);
        lemma_one_more(
            with_fields_but(f, entries, time, skipped, i - 1),
            entries[i - 1].0,
            resolved(entries[i - 1].1, time),
        );
    }
}

/// Law: a mapped body holds only what was mapped. If no destination is empty, every
/// member of the new body is named by the first segment of some destination; what
/// else the incoming body held is gone.
pub proof fn law_only_mapped_members(
    incoming: Json,
    mapping: Seq<EntryView>,
    time: Seq<char>,
    i: int,
    name: Seq<char>,
)
    requires
        0 <= i <= mapping.len(),
        forall|k: int| 0 <= k < i ==> (#[trigger] mapping[k]).0.len() > 0,
        members(mapped(incoming, mapping, time, i)).dom().contains(name),
    ensures
        exists|k: int|
            0 <= k < i && text::split_on((#[trigger] mapping[k]).0, '.')[0] == name,
    decreases i,
{
    if i > 0 {
        let before = mapped(incoming, mapping, time, i - 1);
        text::lemma_split_nonempty(mapping[i - 1].0, '.');
        if members(before).dom().contains(name) {
            law_only_mapped_members(incoming, mapping, time, i - 1, name);
        } else {
            assert(text::split_on(mapping[i - 1].0, '.')[0] == name);
        }
    }
}

/// Law: a destination gets the value of its source, unchanged in kind: the last
/// entry of a mapping is read back exactly.
pub proof fn law_mapped_value_is_the_source(
    incoming: Json,
    mapping: Seq<EntryView>,
    time: Seq<char>,
    i: int,
)
    requires
        0 < i <= mapping.len(),
        source_value(incoming, mapping[i - 1].1, time) is Some,
    ensures
        at_path(mapped(incoming, mapping, time, i), mapping[i - 1].0) == source_value(
            incoming,
            mapping[i - 1].1,
            time,
        ),
{
    json::law_set_then_get(
        mapped(incoming, mapping, time, i - 1),
        mapping[i - 1].0,
        source_value(incoming, mapping[i - 1].1, time)->0,
    );
}

/// Law: the timestamp a header shows and the one the body shows are the same text.
pub proof fn law_header_and_body_agree(incoming: Json, time: Seq<char>)
    ensures
        source_value(incoming, "$request_time"@, time) == Some(
            Json::Str(resolved("$request_time"@, time)),
        ),
{
    reveal_strlit("$literal:");
    reveal_strlit("$request_time");
    assert("$request_time"@.subrange(0, 9)[1] == 'r');
    assert("$literal:"@[1] == 'l');
}

/// What does not begin with a dollar is no placeholder.
proof fn lemma_no_placeholder(source: Seq<char>)
    requires
        source.len() > 0,
        source[0] != '$',
    ensures
        !"$literal:"@.is_prefix_of(source),
        source != "$request_time"@,
        source != "$response_time"@,
{
    reveal_strlit("$literal:");
    reveal_strlit("$request_time");
    reveal_strlit("$response_time");
    assert("$literal:"@[0] == '$' && "$request_time"@[0] == '$' && "$response_time"@[0] == '$');
    if "$literal:"@.is_prefix_of(source) {
        assert(source.subrange(0, "$literal:"@.len() as int)[0] == source[0]);
    }
}

/// Law: a source is a dot-path into the incoming body. Names joined by dots stand for
/// what is met by taking the member of each in turn, and for nothing where one is
/// missing. (A path that begins with a dollar may be a placeholder.)
pub proof fn law_source_is_a_dot_path(
    nodes: Seq<Json>,
    names: Seq<Seq<char>>,
    missing: Seq<char>,
    time: Seq<char>,
)
    requires
        is_walk(nodes, names),
        are_names(names),
        text::joined(names, seq!['.'])[0] != '$',
        !missing.contains('.'),
    ensures
        source_value(nodes[0], text::joined(names, seq!['.']), time) == Some(nodes.last()),
        !(nodes.last() is Object && nodes.last()->Object_0.dom().contains(missing)) ==> source_value(
            nodes[0],
            text::joined(names, seq!['.']) + seq!['.'] + missing,
            time,
        ) is None,
{
    let path = text::joined(names, seq!['.']);
    let longer = names.push(missing);
    text::law_join(names, missing, seq!['.']);
    text::law_join_then_split(names, '.');
    assert(path.len() > 0) by {
        if path.len() == 0 {
            assert(path =~= Seq::<char>::empty());
            text::law_split(Seq::empty(), '.', path);
            assert(names.len() == 1 && names[0] =~= Seq::<char>::empty());
        }
    }
    lemma_no_placeholder(path);
    json::law_path_walks_members(nodes, names);
    if !(nodes.last() is Object && nodes.last()->Object_0.dom().contains(missing)) {
        assert forall|k: int| 0 <= k < longer.len() implies !(#[trigger] longer[k]).contains(
            '.',
        ) by {
            if k < names.len() {
                assert(!names[k].contains('.'));
            }
        }
        lemma_no_placeholder(path + seq!['.'] + missing);
        json::law_path_needs_every_member(nodes, names, missing);
    }
}

/// Law: a member of a member. With a value `v` under `b` in the object under `a`, a
/// mapping with the one entry `dest` from `a.b` builds a body in which `dest` leads to
/// `v`.
pub proof fn law_nested_member_is_mapped(
    incoming: Json,
    a: Seq<char>,
    b: Seq<char>,
    dest: Seq<char>,
    time: Seq<char>,
)
    requires
        !a.contains('.'),
        !b.contains('.'),
        a.len() > 0,
        a[0] != '$',
        incoming is Object,
        incoming->Object_0.dom().contains(a),
        incoming->Object_0[a] is Object,
        incoming->Object_0[a]->Object_0.dom().contains(b),
    ensures
        at_path(mapped(incoming, seq![(dest, a + seq!['.'] + b)], time, 1), dest) == Some(
            incoming->Object_0[a]->Object_0[b],
        ),
{
    let names = seq![a, b];
    let inner = incoming->Object_0[a];
    let nodes = seq![incoming, inner, inner->Object_0[b]];
    let path = a + seq!['.'] + b;
    text::law_join(seq![a], b, seq!['.']);
    text::law_join(seq![a], a, seq!['.']);
    assert(seq![a].push(b) =~= names);
    assert(text::joined(names, seq!['.']) == path);
    assert(path[0] == a[0]);
    law_source_is_a_dot_path(nodes, names, Seq::empty(), time);
    law_mapped_value_is_the_source(incoming, seq![(dest, path)], time, 1);
}

/// Law: the placeholders of a source: `$literal:` gives what follows it as a string,
/// and `$request_time` the timestamp, whatever the body holds.
pub proof fn law_source_placeholders(incoming: Json, v: Seq<char>, time: Seq<char>)
    ensures
        source_value(incoming, "$literal:"@ + v, time) == Some(Json::Str(v)),
        source_value(incoming, "$request_time"@, time) == Some(Json::Str(time)),
{
    crate::pipeline::transform::law_literal_escapes(v, time);
    law_header_and_body_agree(incoming, time);
    let p = "$literal:"@;
    assert((p + v).subrange(0, p.len() as int) =~= p);
    assert((p + v).skip(p.len() as int) =~= v);
    crate::pipeline::transform::law_value_placeholders(v, time);
}

/// Whether two dot-paths lead apart: neither goes through the other.
pub open spec fn lead_apart(a: Seq<char>, b: Seq<char>) -> bool {
    &&& a.len() > 0
    &&& b.len() > 0
    &&& !text::split_on(a, '.').is_prefix_of(text::split_on(b, '.'))
    &&& !text::split_on(b, '.').is_prefix_of(text::split_on(a, '.'))
}

/// Law: every destination gets its source, whichever entry it is, as long as no later
/// destination goes through it.
pub proof fn law_every_entry_is_mapped(
    incoming: Json,
    mapping: Seq<EntryView>,
    time: Seq<char>,
    k: int,
    i: int,
)
    requires
        0 <= k < i <= mapping.len(),
        source_value(incoming, mapping[k].1, time) is Some,
        forall|j: int| k < j < i ==> lead_apart((#[trigger] mapping[j]).0, mapping[k].0),
    ensures
        at_path(mapped(incoming, mapping, time, i), mapping[k].0) == source_value(
            incoming,
            mapping[k].1,
            time,
        ),
    decreases i,
{
    if i == k + 1 {
        law_mapped_value_is_the_source(incoming, mapping, time, i);
    } else {
        law_every_entry_is_mapped(incoming, mapping, time, k, i - 1);
        let before = mapped(incoming, mapping, time, i - 1);
        assert(lead_apart(mapping[i - 1].0, mapping[k].0));
        if let Some(v) = source_value(incoming, mapping[i - 1].1, time) {
            json::law_set_leaves_other_members(before, mapping[i - 1].0, mapping[k].0, v);
        }
    }
}

/// Law: an entry whose source is missing changes nothing, and without entries the new
/// body is an empty object.
pub proof fn law_missing_sources_are_skipped(
    incoming: Json,
    mapping: Seq<EntryView>,
    time: Seq<char>,
    i: int,
)
    requires
        0 < i <= mapping.len(),
        source_value(incoming, mapping[i - 1].1, time) is None,
    ensures
        mapped(incoming, mapping, time, i) == mapped(incoming, mapping, time, i - 1),
        mapped(incoming, mapping, time, 0) == Json::Object(Map::empty()),
{
}

} // verus!

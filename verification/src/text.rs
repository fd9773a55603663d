//! String helpers: comparison, trimming, splitting, decimal numbers, and a map
//! from strings to strings that is kept in key order.

use vstd::prelude::*;
use vstd::utf8::*;

verus! {

/// The characters of `s`, one per element.
pub fn chars_of(s: &str) -> (v: Vec<char>)
    ensures
        v@ == s@,
{
    let mut v: Vec<char> = Vec::new();
    for c in it: s.chars()
        invariant
            it.seq() == s@,
            v@ == s@.take(it.index()),
    {
        v.push(c);
        assert(s@.take(it.index() + 1) =~= s@.take(it.index()).push(c));
    }
    assert(s@.take(s@.len() as int) =~= s@);
    v
}

/// Equality of two byte slices.
pub fn bytes_eq(a: &[u8], b: &[u8]) -> (r: bool)
    ensures
        r == (a@ == b@),
{
    if a.len() != b.len() {
        return false;
    }
    let mut i: usize = 0;
    while i < a.len()
        invariant
            i <= a@.len(),
            a@.len() == b@.len(),
            forall|j: int| 0 <= j < i ==> #[trigger] a@[j] == b@[j],
        decreases a@.len() - i,
    {
        if a[i] != b[i] {
            return false;
        }
        i += 1;
    }
    assert(a@ =~= b@);
    true
}

/// Equality of two strings.
pub fn eq(a: &str, b: &str) -> (r: bool)
    ensures
        r == (a@ == b@),
{
    proof {
        encode_utf8_decode_utf8(a@);
        encode_utf8_decode_utf8(b@);
    }
    bytes_eq(a.as_bytes(), b.as_bytes())
}

/// Whether `s` begins with `prefix`; what follows it, if so.
pub fn strip_prefix<'a>(s: &'a str, prefix: &str) -> (rest: Option<&'a str>)
    ensures
        rest is Some <==> prefix@.is_prefix_of(s@),
        rest is Some ==> rest->0@ == s@.skip(prefix@.len() as int),
{
    let sv = chars_of(s);
    let pv = chars_of(prefix);
    if pv.len() > sv.len() {
        return None;
    }
    let mut i: usize = 0;
    while i < pv.len()
        invariant
            sv@ == s@,
            pv@ == prefix@,
            i <= pv@.len() <= sv@.len(),
            forall|j: int| 0 <= j < i ==> #[trigger] pv@[j] == sv@[j],
        decreases pv@.len() - i,
    {
        if pv[i] != sv[i] {
            assert(prefix@[i as int] != s@.subrange(0, prefix@.len() as int)[i as int]);
            return None;
        }
        i += 1;
    }
    assert(prefix@ =~= s@.subrange(0, prefix@.len() as int));
    let rest = s.substring_char(pv.len(), sv.len());
    assert(s@.subrange(prefix@.len() as int, s@.len() as int) =~= s@.skip(prefix@.len() as int));
    Some(rest)
}

/// `s` without the slashes it ends in.
pub open spec fn without_end_slashes(s: Seq<char>) -> Seq<char>
    decreases s.len(),
{
    if s.len() > 0 && s.last() == '/' {
        without_end_slashes(s.drop_last())
    } else {
        s
    }
}

/// Executable form of [`without_end_slashes`].
pub fn trim_end_slashes(s: &str) -> (r: &str)
    ensures
        r@ == without_end_slashes(s@),
{
    let v = chars_of(s);
    let mut end: usize = v.len();
    assert(s@.take(end as int) =~= s@);
    while end > 0 && v[end - 1] == '/'
        invariant
            v@ == s@,
            end <= v@.len(),
            without_end_slashes(s@.take(end as int)) == without_end_slashes(s@),
        decreases end,
    {
        assert(s@.take(end as int).drop_last() =~= s@.take(end - 1));
        end -= 1;
    }
    assert(s@.subrange(0, end as int) =~= s@.take(end as int));
    s.substring_char(0, end)
}

/// `s` without its end slashes begins `s`, and what was cut is slashes only.
pub proof fn lemma_without_end_slashes(s: Seq<char>)
    ensures
        without_end_slashes(s).is_prefix_of(s),
        forall|i: int| without_end_slashes(s).len() <= i < s.len() ==> #[trigger] s[i] == '/',
        without_end_slashes(s).len() > 0 ==> without_end_slashes(s).last() != '/',
    decreases s.len(),
{
    if s.len() > 0 && s.last() == '/' {
        let front = s.drop_last();
        lemma_without_end_slashes(front);
        let r = without_end_slashes(front);
        assert(s.subrange(0, r.len() as int) =~= front.subrange(0, r.len() as int));
        assert forall|i: int| r.len() <= i < s.len() implies #[trigger] s[i] == '/' by {
            if i < front.len() {
                assert(front[i] == '/');
            }
        }
    } else {
        assert(s.subrange(0, s.len() as int) =~= s);
    }
}

/// The characters that count as white space.
pub open spec fn is_space(c: char) -> bool {
    let u = c as u32;
    ||| 0x09 <= u <= 0x0d
    ||| u == 0x20
    ||| u == 0x85
    ||| u == 0xa0
    ||| u == 0x1680
    ||| 0x2000 <= u <= 0x200a
    ||| u == 0x2028
    ||| u == 0x2029
    ||| u == 0x202f
    ||| u == 0x205f
    ||| u == 0x3000
}

/// Executable form of [`is_space`].
pub fn is_whitespace(c: char) -> (r: bool)
    ensures
        r == is_space(c),
{
    let u: u32 = c as u32;
    (0x09 <= u && u <= 0x0d) || u == 0x20 || u == 0x85 || u == 0xa0 || u == 0x1680 || (0x2000 <= u
        && u <= 0x200a) || u == 0x2028 || u == 0x2029 || u == 0x202f || u == 0x205f || u == 0x3000
}

/// `s` without the white space it begins with.
pub open spec fn without_start_space(s: Seq<char>) -> Seq<char>
    decreases s.len(),
{
    if s.len() > 0 && is_space(s[0]) {
        without_start_space(s.drop_first())
    } else {
        s
    }
}

/// `s` without the white space it ends in.
pub open spec fn without_end_space(s: Seq<char>) -> Seq<char>
    decreases s.len(),
{
    if s.len() > 0 && is_space(s.last()) {
        without_end_space(s.drop_last())
    } else {
        s
    }
}

/// `s` without white space at either end.
pub open spec fn trimmed(s: Seq<char>) -> Seq<char> {
    without_end_space(without_start_space(s))
}

/// Executable form of [`trimmed`].
pub fn trim(s: &str) -> (r: &str)
    ensures
        r@ == trimmed(s@),
{
    let v = chars_of(s);
    let mut from: usize = 0;
    assert(s@.skip(0) =~= s@);
    while from < v.len() && is_whitespace(v[from])
        invariant
            v@ == s@,
            from <= v@.len(),
            without_start_space(s@.skip(from as int)) == without_start_space(s@),
        decreases v@.len() - from,
    {
        assert(s@.skip(from as int).drop_first() =~= s@.skip(from + 1));
        from += 1;
    }
    let ghost head = s@.skip(from as int);
    assert(without_start_space(s@) == head);
    let mut to: usize = v.len();
    assert(s@.subrange(from as int, to as int) =~= head);
    while to > from && is_whitespace(v[to - 1])
        invariant
            v@ == s@,
            from <= to <= v@.len(),
            without_end_space(s@.subrange(from as int, to as int)) == without_end_space(head),
        decreases to,
    {
        assert(s@.subrange(from as int, to as int).drop_last() =~= s@.subrange(
            from as int,
            to - 1,
        ));
        to -= 1;
    }
    s.substring_char(from, to)
}

/// The pieces of `s` between the occurrences of `c`: always at least one piece.
pub open spec fn split_on(s: Seq<char>, c: char) -> Seq<Seq<char>>
    decreases s.len(),
{
    if s.len() == 0 {
        seq![Seq::<char>::empty()]
    } else {
        let front = split_on(s.drop_last(), c);
        if s.last() == c {
            front.push(Seq::<char>::empty())
        } else {
            front.update(front.len() - 1, front.last().push(s.last()))
        }
    }
}

/// The views of a list of strings.
pub open spec fn views(v: Seq<String>) -> Seq<Seq<char>> {
    v.map_values(|s: String| s@)
}

/// There is always at least one piece.
pub proof fn lemma_split_nonempty(s: Seq<char>, c: char)
    ensures
        split_on(s, c).len() > 0,
    decreases s.len(),
{
    if s.len() > 0 {
        lemma_split_nonempty(s.drop_last(), c);
    }
}

/// Executable form of [`split_on`].
pub fn split(s: &str, c: char) -> (pieces: Vec<String>)
    ensures
        views(pieces@) == split_on(s@, c),
{
    let v = chars_of(s);
    let mut done: Vec<String> = Vec::new();
    let mut from: usize = 0;
    let mut i: usize = 0;
    assert(s@.take(0) =~= Seq::<char>::empty());
    assert(s@.subrange(0, 0) =~= Seq::<char>::empty());
    assert(views(done@).push(s@.subrange(0, 0)) =~= split_on(s@.take(0), c));
    while i < v.len()
        invariant
            v@ == s@,
            from <= i <= v@.len(),
            views(done@).push(s@.subrange(from as int, i as int)) == split_on(s@.take(i as int), c),
        decreases v@.len() - i,
    {
        let ghost open_piece = s@.subrange(from as int, i as int);
        let ghost before = split_on(s@.take(i as int), c);
        let ghost held = views(done@);
        assert(s@.take(i + 1).drop_last() =~= s@.take(i as int));
        assert(s@.take(i + 1).last() == s@[i as int]);
        if v[i] == c {
            let piece = s.substring_char(from, i).to_string();
            done.push(piece);
            from = i + 1;
            assert(views(done@) =~= held.push(open_piece));
            assert(s@.subrange(from as int, i + 1) =~= Seq::<char>::empty());
        } else {
            assert(s@.subrange(from as int, i + 1) =~= open_piece.push(s@[i as int]));
            assert(held.push(open_piece).last() == open_piece);
            assert(held.push(open_piece).update(
                held.len() as int,
                open_piece.push(s@[i as int]),
            ) =~= held.push(open_piece.push(s@[i as int])));
        }
        i += 1;
    }
    let ghost held = views(done@);
    let last = s.substring_char(from, v.len()).to_string();
    done.push(last);
    assert(views(done@) =~= held.push(s@.subrange(from as int, v@.len() as int)));
    assert(s@.take(s@.len() as int) =~= s@);
    done
}

/// The decimal digit for a value below ten.
pub open spec fn digit(d: int) -> char {
    if d == 0 {
        '0'
    } else if d == 1 {
        '1'
    } else if d == 2 {
        '2'
    } else if d == 3 {
        '3'
    } else if d == 4 {
        '4'
    } else if d == 5 {
        '5'
    } else if d == 6 {
        '6'
    } else if d == 7 {
        '7'
    } else if d == 8 {
        '8'
    } else {
        '9'
    }
}

/// `n` in decimal, without leading zeros.
pub open spec fn decimal(n: nat) -> Seq<char>
    decreases n,
{
    if n < 10 {
        seq![digit(n as int)]
    } else {
        decimal(n / 10).push(digit((n % 10) as int))
    }
}

/// The one-character string of a digit.
fn digit_str(d: u64) -> (s: &'static str)
    requires
        d < 10,
    ensures
        s@ == seq![digit(d as int)],
{
    proof {
        reveal_strlit("0");
        reveal_strlit("1");
        reveal_strlit("2");
        reveal_strlit("3");
        reveal_strlit("4");
        reveal_strlit("5");
        reveal_strlit("6");
        reveal_strlit("7");
        reveal_strlit("8");
        reveal_strlit("9");
    }
    let s = if d == 0 {
        "0"
    } else if d == 1 {
        "1"
    } else if d == 2 {
        "2"
    } else if d == 3 {
        "3"
    } else if d == 4 {
        "4"
    } else if d == 5 {
        "5"
    } else if d == 6 {
        "6"
    } else if d == 7 {
        "7"
    } else if d == 8 {
        "8"
    } else {
        "9"
    };
    assert(s@ =~= seq![digit(d as int)]);
    s
}

/// Executable form of [`decimal`].
pub fn decimal_str(n: u64) -> (s: String)
    ensures
        s@ == decimal(n as nat),
    decreases n,
{
    let mut s = if n < 10 {
        String::new()
    } else {
        decimal_str(n / 10)
    };
    let ghost front = s@;
    s.append(digit_str(n % 10));
    assert(s@ =~= decimal(n as nat)) by {
        if n < 10 {
            assert(front + seq![digit(n as int)] =~= seq![digit(n as int)]);
        } else {
            assert(front + seq![digit(n as int % 10)] =~= front.push(digit(n as int % 10)));
        }
    }
    s
}

/// Whether `c` is one of `0` to `9`.
pub open spec fn is_digit(c: char) -> bool {
    '0' <= c <= '9'
}

/// The number a run of decimal digits stands for.
pub open spec fn number(s: Seq<char>) -> nat
    decreases s.len(),
{
    if s.len() == 0 {
        0
    } else {
        number(s.drop_last()) * 10 + (s.last() as int - '0' as int) as nat
    }
}

/// Reading on never makes the number smaller.
proof fn lemma_number_grows(s: Seq<char>, i: int)
    requires
        0 <= i <= s.len(),
        forall|j: int| 0 <= j < s.len() ==> is_digit(#[trigger] s[j]),
    ensures
        number(s.take(i)) <= number(s),
    decreases s.len() - i,
{
    if i < s.len() {
        assert(s.take(i + 1).drop_last() =~= s.take(i));
        assert(s.take(i + 1).last() == s[i]);
        lemma_number_grows(s, i + 1);
    } else {
        assert(s.take(i) =~= s);
    }
}

/// The value of a non-empty run of decimal digits, unless it is too large.
pub fn parse_digits(v: &Vec<char>, end: usize) -> (n: Option<u64>)
    requires
        end <= v@.len(),
        forall|j: int| 0 <= j < end ==> is_digit(#[trigger] v@[j]),
    ensures
        n == (if 0 < end && number(v@.take(end as int)) <= u64::MAX {
            Some(number(v@.take(end as int)) as u64)
        } else {
            None
        }),
{
    if end == 0 {
        return None;
    }
    let ghost run = v@.take(end as int);
    let mut n: u64 = 0;
    let mut i: usize = 0;
    assert(run.take(0) =~= Seq::<char>::empty());
    while i < end
        invariant
            0 < end <= v@.len(),
            i <= end,
            run == v@.take(end as int),
            forall|j: int| 0 <= j < run.len() ==> is_digit(#[trigger] run[j]),
            n == number(run.take(i as int)),
        decreases end - i,
    {
        let c: u32 = v[i] as u32;
        proof {
            assert(run[i as int] == v@[i as int]);
            assert(is_digit(run[i as int]));
            assert(run.take(i + 1).drop_last() =~= run.take(i as int));
            assert(run.take(i + 1).last() == run[i as int]);
            lemma_number_grows(run, i + 1);
        }
        let d: u64 = (c - 48) as u64;
        if n > (u64::MAX - d) / 10 {
            assert(n * 10 + d > u64::MAX);
            return None;
        }
        n = n * 10 + d;
        i += 1;
    }
    assert(run.take(end as int) =~= run);
    Some(n)
}

/// The strings of `v` joined by `sep`.
pub open spec fn joined(v: Seq<Seq<char>>, sep: Seq<char>) -> Seq<char>
    decreases v.len(),
{
    if v.len() == 0 {
        Seq::empty()
    } else if v.len() == 1 {
        v[0]
    } else {
        joined(v.drop_last(), sep) + sep + v.last()
    }
}

/// Executable form of [`joined`].
pub fn join(v: &[String], sep: &str) -> (s: String)
    ensures
        s@ == joined(views(v@), sep@),
{
    let mut s = String::new();
    let mut i: usize = 0;
    assert(views(v@).take(0) =~= Seq::<Seq<char>>::empty());
    assert(s@ =~= Seq::<char>::empty());
    while i < v.len()
        invariant
            i <= v@.len(),
            s@ == joined(views(v@).take(i as int), sep@),
        decreases v@.len() - i,
    {
        assert(views(v@).take(i + 1).drop_last() =~= views(v@).take(i as int));
        assert(views(v@).take(i + 1).last() == v@[i as int]@);
        if i > 0 {
            s.append(sep);
        }
        s.append(v[i].as_str());
        if i == 0 {
            assert(s@ =~= v@[0]@);
        }
        i += 1;
    }
    assert(views(v@).take(v@.len() as int) =~= views(v@));
    s
}

/// `c`, made lower-case if it is an upper-case ASCII letter.
pub open spec fn lower_char(c: char) -> char {
    if 'A' <= c <= 'Z' {
        (c as u32 + 32) as char
    } else {
        c
    }
}

/// `s` with each upper-case ASCII letter made lower-case.
pub open spec fn lower(s: Seq<char>) -> Seq<char> {
    s.map_values(|c: char| lower_char(c))
}

/// Whether two characters are the same letter up to ASCII case.
fn same_letter(a: char, b: char) -> (r: bool)
    ensures
        r == (lower_char(a) == lower_char(b)),
{
    let x: u32 = a as u32;
    let y: u32 = b as u32;
    let p: u32 = if 65 <= x && x <= 90 {
        x + 32
    } else {
        x
    };
    let q: u32 = if 65 <= y && y <= 90 {
        y + 32
    } else {
        y
    };
    p == q
}

/// Equality of two strings up to the case of ASCII letters.
pub fn eq_ignore_ascii_case(a: &str, b: &str) -> (r: bool)
    ensures
        r == (lower(a@) == lower(b@)),
{
    let x = chars_of(a);
    let y = chars_of(b);
    if x.len() != y.len() {
        assert(lower(x@).len() != lower(y@).len());
        return false;
    }
    let mut i: usize = 0;
    while i < x.len()
        invariant
            i <= x@.len(),
            x@.len() == y@.len(),
            x@ == a@,
            y@ == b@,
            forall|j: int| 0 <= j < i ==> #[trigger] lower(x@)[j] == lower(y@)[j],
        decreases x@.len() - i,
    {
        if !same_letter(x[i], y[i]) {
            assert(lower(x@)[i as int] != lower(y@)[i as int]);
            return false;
        }
        i += 1;
    }
    assert(lower(x@) =~= lower(y@));
    true
}

/// Whether `a` comes before `b` in dictionary order.
pub open spec fn before(a: Seq<char>, b: Seq<char>) -> bool
    decreases b.len(),
{
    if b.len() == 0 {
        false
    } else if a.len() == 0 {
        true
    } else if a[0] != b[0] {
        a[0] < b[0]
    } else {
        before(a.drop_first(), b.drop_first())
    }
}

/// Dictionary order is total.
pub proof fn lemma_before_total(a: Seq<char>, b: Seq<char>)
    ensures
        before(a, b) || before(b, a) || a == b,
        !(before(a, b) && before(b, a)),
        !before(a, a),
    decreases a.len() + b.len(),
{
    if a.len() > 0 && b.len() > 0 {
        lemma_before_total(a.drop_first(), b.drop_first());
        if a[0] == b[0] && a.drop_first() == b.drop_first() {
            assert(a =~= seq![a[0]] + a.drop_first());
            assert(b =~= seq![b[0]] + b.drop_first());
        }
    } else if a.len() == 0 && b.len() == 0 {
        assert(a =~= b);
    }
    if a.len() > 0 {
        lemma_before_irreflexive(a);
    }
}

proof fn lemma_before_irreflexive(a: Seq<char>)
    ensures
        !before(a, a),
    decreases a.len(),
{
    if a.len() > 0 {
        lemma_before_irreflexive(a.drop_first());
    }
}

/// Dictionary order is transitive.
pub proof fn lemma_before_transitive(a: Seq<char>, b: Seq<char>, c: Seq<char>)
    requires
        before(a, b),
        before(b, c),
    ensures
        before(a, c),
    decreases a.len() + b.len() + c.len(),
{
    if a.len() > 0 && b.len() > 0 && c.len() > 0 && a[0] == b[0] && b[0] == c[0] {
        lemma_before_transitive(a.drop_first(), b.drop_first(), c.drop_first());
    }
}

/// Executable form of [`before`].
pub fn is_before(a: &str, b: &str) -> (r: bool)
    ensures
        r == before(a@, b@),
{
    let x = chars_of(a);
    let y = chars_of(b);
    let mut i: usize = 0;
    assert(a@.skip(0) =~= a@);
    assert(b@.skip(0) =~= b@);
    while i < x.len() && i < y.len()
        invariant
            x@ == a@,
            y@ == b@,
            i <= x@.len(),
            i <= y@.len(),
            before(a@, b@) == before(a@.skip(i as int), b@.skip(i as int)),
        decreases x@.len() - i,
    {
        assert(a@.skip(i as int)[0] == x@[i as int]);
        assert(b@.skip(i as int)[0] == y@[i as int]);
        if x[i] != y[i] {
            return x[i] < y[i];
        }
        assert(a@.skip(i as int).drop_first() =~= a@.skip(i + 1));
        assert(b@.skip(i as int).drop_first() =~= b@.skip(i + 1));
        i += 1;
    }
    i < y.len()
}

/// A map from strings to strings, held as its entries in ascending key order.
pub struct StringMap {
    entries: Vec<(String, String)>,
}

/// An entry of a [`StringMap`]: a key and its value.
pub type EntryView = (Seq<char>, Seq<char>);

impl View for StringMap {
    type V = Seq<EntryView>;

    /// The entries, in ascending key order.
    closed spec fn view(&self) -> Seq<EntryView> {
        self.entries@.map_values(|e: (String, String)| (e.0@, e.1@))
    }
}

/// Whether the keys of `s` are strictly ascending.
pub open spec fn ascending(s: Seq<EntryView>) -> bool {
    forall|i: int, j: int| 0 <= i < j < s.len() ==> before((#[trigger] s[i]).0, (#[trigger] s[j]).0)
}

/// `s` with the value of `key` set to `value`, entries kept in ascending order.
pub open spec fn with_entry(s: Seq<EntryView>, key: Seq<char>, value: Seq<char>) -> Seq<EntryView>
    decreases s.len(),
{
    if s.len() == 0 {
        seq![(key, value)]
    } else if before(s.last().0, key) {
        s.push((key, value))
    } else if s.last().0 == key {
        s.drop_last().push((key, value))
    } else {
        with_entry(s.drop_last(), key, value).push(s.last())
    }
}

impl StringMap {
    /// The invariant: strictly ascending keys.
    pub closed spec fn valid(&self) -> bool {
        ascending(self@)
    }

    /// Law: the entries of a map are in strictly ascending key order, so walking
    /// them is deterministic and no key occurs twice.
    pub proof fn law_entries_ascend(&self)
        requires
            self.valid(),
        ensures
            ascending(self@),
    {
    }

    /// An empty map.
    pub fn new() -> (m: StringMap)
        ensures
            m@ == Seq::<EntryView>::empty(),
            m.valid(),
    {
        let m = StringMap { entries: Vec::new() };
        assert(m@ =~= Seq::<EntryView>::empty());
        m
    }

    /// The number of entries.
    pub fn len(&self) -> (n: usize)
        ensures
            n == self@.len(),
    {
        self.entries.len()
    }

    /// The key of the entry at `i`.
    pub fn key(&self, i: usize) -> (k: &str)
        requires
            i < self@.len(),
        ensures
            k@ == self@[i as int].0,
    {
        self.entries[i].0.as_str()
    }

    /// The value of the entry at `i`.
    pub fn value(&self, i: usize) -> (v: &str)
        requires
            i < self@.len(),
        ensures
            v@ == self@[i as int].1,
    {
        self.entries[i].1.as_str()
    }

    /// Set the value of `key`, replacing the one it had.
    pub fn insert(&mut self, key: String, value: String)
        requires
            old(self).valid(),
        ensures
            final(self).valid(),
            final(self)@ == with_entry(old(self)@, key@, value@),
    {
        let ghost start = self@;
        let ghost kv = (key@, value@);
        let mut i: usize = self.entries.len();
        assert(start.take(i as int) =~= start);
        assert(with_entry(start, key@, value@) =~= with_entry(start.take(i as int), key@, value@)
            + start.skip(i as int));
        while i > 0 && is_before(key.as_str(), self.entries[i - 1].0.as_str())
            invariant
                i <= self.entries@.len(),
                start == self@,
                ascending(start),
                forall|j: int| i <= j < start.len() ==> before(key@, (#[trigger] start[j]).0),
                with_entry(start, key@, value@) == with_entry(
                    start.take(i as int),
                    key@,
                    value@,
                ) + start.skip(i as int),
            decreases i,
        {
            proof {
                let front = start.take(i as int);
                lemma_before_total(key@, front.last().0);
                assert(front.drop_last() =~= start.take(i - 1));
                assert(front.last() == start[i - 1]);
                assert(with_entry(front, key@, value@) == with_entry(
                    start.take(i - 1),
                    key@,
                    value@,
                ).push(start[i - 1]));
                assert(with_entry(start.take(i - 1), key@, value@).push(start[i - 1]) + start.skip(
                    i as int,
                ) =~= with_entry(start.take(i - 1), key@, value@) + start.skip(i - 1));
            }
            i -= 1;
        }
        let ghost front = start.take(i as int);
        proof {
            if i > 0 {
                assert(front.last() == start[i - 1]);
                lemma_before_total(key@, start[i - 1].0);
            }
        }
        if i > 0 && eq(self.entries[i - 1].0.as_str(), key.as_str()) {
            self.entries[i - 1] = (key, value);
            proof {
                assert(self@ =~= start.update(i - 1, kv));
                assert(front.drop_last().push(kv) + start.skip(i as int) =~= start.update(
                    i - 1,
                    kv,
                ));
            }
        } else {
            self.entries.insert(i, (key, value));
            proof {
                assert(self@ =~= start.insert(i as int, kv));
                if i == 0 {
                    assert(front =~= Seq::<EntryView>::empty());
                    assert(seq![kv] + start.skip(0) =~= start.insert(0, kv));
                } else {
                    assert(front.push(kv) + start.skip(i as int) =~= start.insert(i as int, kv));
                }
                assert forall|a: int, b: int| 0 <= a < b < self@.len() implies before(
                    (#[trigger] self@[a]).0,
                    (#[trigger] self@[b]).0,
                ) by {
                    if b == i {
                        if a < i - 1 {
                            assert(before(start[a].0, start[i - 1].0));
                            lemma_before_transitive(start[a].0, start[i - 1].0, kv.0);
                        }
                    } else if a == i {
                        assert(before(kv.0, start[b - 1].0));
                    } else {
                        let x = if a < i {
                            a
                        } else {
                            a - 1
                        };
                        let y = if b < i {
                            b
                        } else {
                            b - 1
                        };
                        assert(self@[a] == start[x]);
                        assert(self@[b] == start[y]);
                    }
                }
            }
        }
    }
}

/// A copy of a list of strings.
pub fn copy_strings(v: &[String]) -> (c: Vec<String>)
    ensures
        views(c@) == views(v@),
{
    let mut c: Vec<String> = Vec::new();
    let mut i: usize = 0;
    while i < v.len()
        invariant
            i <= v@.len(),
            views(c@) == views(v@).take(i as int),
        decreases v@.len() - i,
    {
        let ghost held = views(c@);
        c.push(v[i].clone());
        assert(views(c@) =~= held.push(v@[i as int]@));
        assert(views(v@).take(i + 1) =~= views(v@).take(i as int).push(v@[i as int]@));
        i += 1;
    }
    assert(views(v@).take(v@.len() as int) =~= views(v@));
    c
}

impl StringMap {
    /// A copy of this map.
    pub fn copy_map(&self) -> (c: StringMap)
        requires
            self.valid(),
        ensures
            c@ == self@,
            c.valid(),
    {
        let mut entries: Vec<(String, String)> = Vec::new();
        let mut i: usize = 0;
        while i < self.entries.len()
            invariant
                i <= self.entries@.len(),
                entries@.map_values(|e: (String, String)| (e.0@, e.1@)) == self@.take(i as int),
            decreases self.entries@.len() - i,
        {
            let ghost held = entries@.map_values(|e: (String, String)| (e.0@, e.1@));
            entries.push((self.entries[i].0.clone(), self.entries[i].1.clone()));
            assert(entries@.map_values(|e: (String, String)| (e.0@, e.1@)) =~= held.push(
                self@[i as int],
            ));
            assert(self@.take(i + 1) =~= self@.take(i as int).push(self@[i as int]));
            i += 1;
        }
        assert(self@.take(self@.len() as int) =~= self@);
        StringMap { entries }
    }
}

/// Law: setting a key gives it that value and leaves every other key as it was.
pub proof fn law_insert_sets_one_key(
    s: Seq<EntryView>,
    key: Seq<char>,
    value: Seq<char>,
    other: EntryView,
)
    requires
        ascending(s),
    ensures
        with_entry(s, key, value).contains((key, value)),
        other.0 != key ==> (with_entry(s, key, value).contains(other) <==> s.contains(other)),
        other.0 == key && with_entry(s, key, value).contains(other) ==> other.1 == value,
    decreases s.len(),
{
    let r = with_entry(s, key, value);
    let kv = (key, value);
    if s.len() == 0 {
        assert(r[0] == kv);
    } else if before(s.last().0, key) {
        assert(r[r.len() - 1] == kv);
        assert forall|i: int| 0 <= i < s.len() implies (#[trigger] s[i]).0 != key by {
            lemma_before_total(key, s.last().0);
            if i < s.len() - 1 {
                assert(before(s[i].0, s[s.len() - 1].0));
                lemma_before_transitive(s[i].0, s.last().0, key);
            }
            lemma_before_total(key, s[i].0);
        }
        lemma_contains_push(s, kv, other);
    } else if s.last().0 == key {
        let front = s.drop_last();
        assert(r[r.len() - 1] == kv);
        assert(s =~= front.push(s.last()));
        assert forall|i: int| 0 <= i < front.len() implies (#[trigger] front[i]).0 != key by {
            assert(before(s[i].0, s[s.len() - 1].0));
            lemma_before_total(s[i].0, key);
        }
        lemma_contains_push(front, kv, other);
        lemma_contains_push(front, s.last(), other);
    } else {
        let front = s.drop_last();
        assert forall|i: int, j: int| 0 <= i < j < front.len() implies before(
            (#[trigger] front[i]).0,
            (#[trigger] front[j]).0,
        ) by {
            assert(before(s[i].0, s[j].0));
        }
        law_insert_sets_one_key(front, key, value, other);
        assert(s =~= front.push(s.last()));
        lemma_contains_push(with_entry(front, key, value), s.last(), kv);
        lemma_contains_push(with_entry(front, key, value), s.last(), other);
        lemma_contains_push(front, s.last(), other);
    }
}

/// What a sequence with one more element holds.
proof fn lemma_contains_push<T>(s: Seq<T>, last: T, x: T)
    ensures
        s.push(last).contains(x) <==> s.contains(x) || x == last,
{
    if s.contains(x) {
        let i = choose|i: int| 0 <= i < s.len() && s[i] == x;
        assert(s.push(last)[i] == x);
    }
    assert(s.push(last)[s.len() as int] == last);
}

/// Law: how a string is cut up. A string without the separator is one piece, and what
/// follows the last separator is the last piece.
pub proof fn law_split(s: Seq<char>, c: char, last: Seq<char>)
    requires
        !last.contains(c),
    ensures
        split_on(last, c) == seq![last],
        split_on(s + seq![c] + last, c) == split_on(s, c).push(last),
    decreases last.len(),
{
    lemma_split_nonempty(s, c);
    if last.len() == 0 {
        assert(last =~= Seq::<char>::empty());
        assert((s + seq![c] + last).drop_last() =~= s);
        assert((s + seq![c] + last).last() == c);
    } else {
        let front = last.drop_last();
        assert(!front.contains(c)) by {
            if front.contains(c) {
                let i = choose|i: int| 0 <= i < front.len() && front[i] == c;
                assert(last[i] == c);
            }
        }
        assert(last[last.len() - 1] != c);
        law_split(s, c, front);
        assert((s + seq![c] + last).drop_last() =~= s + seq![c] + front);
        assert(front.push(last.last()) =~= last);
        assert(seq![front].update(0, last) =~= seq![last]);
        assert(split_on(s, c).push(front).update(split_on(s, c).len() as int, last) =~= split_on(
            s,
            c,
        ).push(last));
    }
}

/// Law: what is joined by a separator that stands in no piece is cut up into the same
/// pieces again.
pub proof fn law_join_then_split(pieces: Seq<Seq<char>>, c: char)
    requires
        pieces.len() > 0,
        forall|i: int| 0 <= i < pieces.len() ==> !(#[trigger] pieces[i]).contains(c),
    ensures
        split_on(joined(pieces, seq![c]), c) == pieces,
    decreases pieces.len(),
{
    let last = pieces.last();
    assert(!pieces[pieces.len() - 1].contains(c));
    if pieces.len() == 1 {
        law_split(Seq::empty(), c, last);
        assert(seq![last] =~= pieces);
    } else {
        let front = pieces.drop_last();
        assert forall|i: int| 0 <= i < front.len() implies !(#[trigger] front[i]).contains(c) by {
            assert(!pieces[i].contains(c));
        }
        law_join_then_split(front, c);
        law_split(joined(front, seq![c]), c, last);
        assert(front.push(last) =~= pieces);
    }
}

/// Law: joining puts the separator between the pieces and nowhere else.
pub proof fn law_join(pieces: Seq<Seq<char>>, last: Seq<char>, sep: Seq<char>)
    ensures
        joined(Seq::<Seq<char>>::empty(), sep) == Seq::<char>::empty(),
        joined(seq![last], sep) == last,
        pieces.len() > 0 ==> joined(pieces.push(last), sep) == joined(pieces, sep) + sep + last,
{
    assert(pieces.push(last).drop_last() =~= pieces);
}

/// Law: exactly the slashes at the end are cut off, however many there are.
pub proof fn law_end_slashes(s: Seq<char>, n: nat)
    requires
        s.len() > 0 ==> s.last() != '/',
    ensures
        without_end_slashes(s + Seq::new(n, |i: int| '/')) == s,
    decreases n,
{
    let t = s + Seq::new(n, |i: int| '/');
    if n == 0 {
        assert(t =~= s);
    } else {
        assert(t.drop_last() =~= s + Seq::new((n - 1) as nat, |i: int| '/'));
        law_end_slashes(s, (n - 1) as nat);
    }
}

/// Law: a number is written so that its digits stand for it, in digits only and
/// without a leading zero.
pub proof fn law_decimal(n: nat)
    ensures
        number(decimal(n)) == n,
        decimal(n).len() > 0,
        forall|i: int| 0 <= i < decimal(n).len() ==> '0' <= #[trigger] decimal(n)[i] <= '9',
        n > 0 ==> decimal(n)[0] != '0',
    decreases n,
{
    let d = decimal(n);
    if n < 10 {
        assert(d =~= Seq::<char>::empty().push(digit(n as int)));
        law_number(Seq::empty(), digit(n as int));
    } else {
        law_decimal(n / 10);
        law_number(decimal(n / 10), digit((n % 10) as int));
    }
}

/// Law: a run of digits stands for the number it is in decimal: each digit further
/// makes ten of every one before.
pub proof fn law_number(s: Seq<char>, d: char)
    requires
        '0' <= d <= '9',
    ensures
        number(Seq::<char>::empty()) == 0,
        number(s.push(d)) == 10 * number(s) + (d as int - '0' as int),
{
    assert(s.push(d).drop_last() =~= s);
}

/// Law: lower case changes `A` to `Z`, each to the letter 32 further on, and leaves
/// every other character alone.
pub proof fn law_lower(s: Seq<char>, i: int)
    requires
        0 <= i < s.len(),
    ensures
        lower(s).len() == s.len(),
        'A' <= s[i] <= 'Z' ==> lower(s)[i] as int == s[i] as int + 32,
        !('A' <= s[i] <= 'Z') ==> lower(s)[i] == s[i],
{
}

/// Law: blanks, tabs and line ends are cut off at both ends, and what stands between
/// is kept as it is.
pub proof fn law_trim(left: Seq<char>, core: Seq<char>, right: Seq<char>)
    requires
        forall|i: int|
            0 <= i < left.len() ==> (#[trigger] left[i] == ' ' || left[i] == '\t' || left[i] == '\n'
                || left[i] == '\r'),
        forall|i: int|
            0 <= i < right.len() ==> (#[trigger] right[i] == ' ' || right[i] == '\t' || right[i]
                == '\n' || right[i] == '\r'),
        core.len() > 0 ==> '!' <= core[0] <= '~' && '!' <= core.last() <= '~',
    ensures
        trimmed(left + core + right) == core,
{
    lemma_trim_start(left, core + right);
    assert(left + core + right =~= left + (core + right));
    if core.len() == 0 {
        assert(left + core + right =~= left + right);
        assert(left + right =~= (left + right) + Seq::<char>::empty());
        assert forall|i: int| 0 <= i < (left + right).len() implies is_space(
            #[trigger] (left + right)[i],
        ) by {
            if i < left.len() {
                assert((left + right)[i] == left[i]);
            } else {
                assert((left + right)[i] == right[i - left.len()]);
            }
        }
        lemma_trim_start(left + right, Seq::empty());
        assert(core =~= Seq::<char>::empty());
    } else {
        assert((core + right)[0] == core[0]);
        lemma_trim_end(core, right);
    }
}

proof fn lemma_trim_start(left: Seq<char>, rest: Seq<char>)
    requires
        forall|i: int| 0 <= i < left.len() ==> is_space(#[trigger] left[i]),
    ensures
        rest.len() == 0 || !is_space(rest[0]) ==> without_start_space(left + rest) == rest,
    decreases left.len(),
{
    let s = left + rest;
    if left.len() == 0 {
        assert(s =~= rest);
    } else {
        assert(s[0] == left[0]);
        assert(s.drop_first() =~= left.drop_first() + rest);
        lemma_trim_start(left.drop_first(), rest);
    }
}

proof fn lemma_trim_end(core: Seq<char>, right: Seq<char>)
    requires
        forall|i: int| 0 <= i < right.len() ==> is_space(#[trigger] right[i]),
        core.len() == 0 || !is_space(core.last()),
    ensures
        without_end_space(core + right) == core,
    decreases right.len(),
{
    let s = core + right;
    if right.len() == 0 {
        assert(s =~= core);
    } else {
        assert(s.last() == right[right.len() - 1]);
        assert(s.drop_last() =~= core + right.drop_last());
        lemma_trim_end(core, right.drop_last());
    }
}

/// Law: dictionary order. What two strings begin with in common does not matter; after
/// it the string that ends comes first, or the one with the smaller character.
pub proof fn law_dictionary_order(
    common: Seq<char>,
    x: char,
    y: char,
    a: Seq<char>,
    b: Seq<char>,
)
    ensures
        before(common, common + seq![x] + a),
        !before(common + seq![x] + a, common),
        x < y ==> before(common + seq![x] + a, common + seq![y] + b),
        x < y ==> !before(common + seq![y] + b, common + seq![x] + a),
    decreases common.len(),
{
    let (p, q) = (common + seq![x] + a, common + seq![y] + b);
    if common.len() > 0 {
        let rest = common.drop_first();
        assert(p.drop_first() =~= rest + seq![x] + a);
        assert(q.drop_first() =~= rest + seq![y] + b);
        assert(p[0] == common[0] && q[0] == common[0]);
        law_dictionary_order(rest, x, y, a, b);
    } else {
        assert(p[0] == x && q[0] == y);
    }
}

} // verus!

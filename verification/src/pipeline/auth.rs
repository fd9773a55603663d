//! API-key authentication: a request has to present a configured header whose value
//! is one of the route's keys, else it is answered with 401. A missing header and a
//! wrong value are treated alike.

use vstd::prelude::*;
use vstd::utf8::encode_utf8;

use crate::config::Auth;
use crate::headers;
use crate::headers::{fields, is_name, Fields};
use crate::text;

verus! {

/// The header a route looks at, and the keys it accepts.
pub struct AuthStage {
    pub header: String,
    pub keys: Vec<String>,
}

/// Whether `presented` is one of the keys.
pub open spec fn is_key(keys: Seq<Seq<char>>, presented: Seq<u8>) -> bool {
    exists|i: int| 0 <= i < keys.len() && encode_utf8(#[trigger] keys[i]) == presented
}

/// Whether a request with those headers is authorized: the first value of the named
/// header is one of the keys.
pub open spec fn authorized(header: Seq<char>, keys: Seq<Seq<char>>, f: Fields) -> bool {
    &&& is_name(header)
    &&& f.dom().contains(text::lower(header))
    &&& is_key(keys, f[text::lower(header)][0])
}

/// Whether two byte strings of the same length are equal. Every byte is looked at,
/// so the time taken does not show where they differ.
fn same_bytes(a: &[u8], b: &[u8]) -> (r: bool)
    requires
        a@.len() == b@.len(),
    ensures
        r == (a@ == b@),
{
    let mut diff: u8 = 0;
    let mut i: usize = 0;
    while i < a.len()
        invariant
            i <= a@.len(),
            a@.len() == b@.len(),
            diff == 0 <==> (forall|j: int| 0 <= j < i ==> #[trigger] a@[j] == b@[j]),
        decreases a@.len() - i,
    {
        let x: u8 = a[i];
        let y: u8 = b[i];
        assert((diff | (x ^ y)) == 0 <==> (diff == 0 && x == y)) by (bit_vector);
        diff = diff | (x ^ y);
        i += 1;
    }
    assert(diff == 0 ==> a@ =~= b@);
    diff == 0
}

impl AuthStage {
    /// The stage for a configured credential.
    pub fn new(auth: &Auth) -> (s: AuthStage)
        ensures
            s.header@ == auth.header@,
            text::views(s.keys@) == text::views(auth.keys@),
    {
        AuthStage {
            header: auth.header.clone(),
            keys: text::copy_strings(auth.keys.as_slice()),
        }
    }

    /// Whether `presented` is one of the keys. Every key is compared, and none is
    /// left early, so the time taken does not show which one matched. Lengths are
    /// not secret.
    pub fn matches(&self, presented: &[u8]) -> (r: bool)
        ensures
            r == is_key(text::views(self.keys@), presented@),
    {
        let ghost keys = text::views(self.keys@);
        let mut matched: bool = false;
        let mut i: usize = 0;
        while i < self.keys.len()
            invariant
                i <= self.keys@.len(),
                keys == text::views(self.keys@),
                matched <==> exists|j: int|
                    0 <= j < i && encode_utf8(#[trigger] keys[j]) == presented@,
            decreases self.keys@.len() - i,
        {
            let ghost before = matched;
            let key = self.keys[i].as_str().as_bytes();
            assert(keys[i as int] == self.keys@[i as int]@);
            assert(key@ == encode_utf8(keys[i as int]));
            if key.len() == presented.len() {
                let same = same_bytes(key, presented);
                matched = matched || same;
            }
            proof {
                if before {
                    let j = choose|j: int|
                        0 <= j < i && encode_utf8(#[trigger] keys[j]) == presented@;
                    assert(0 <= j < i + 1 && encode_utf8(keys[j]) == presented@);
                }
            }
            i += 1;
        }
        matched
    }

    /// Whether a request with those headers is authorized.
    pub fn authorizes(&self, h: &hyper::HeaderMap) -> (r: bool)
        ensures
            r == authorized(self.header@, text::views(self.keys@), fields(*h)),
    {
        match headers::first_value(h, self.header.as_str()) {
            Some(v) => self.matches(headers::bytes_of(v)),
            None => false,
        }
    }
}

/// Law: without keys nothing is authorized.
pub proof fn law_no_keys_no_access(header: Seq<char>, f: Fields)
    ensures
        !authorized(header, Seq::<Seq<char>>::empty(), f),
{
}

/// Law: the case in which the header's name is written makes no difference.
pub proof fn law_header_case_is_ignored(
    a: Seq<char>,
    b: Seq<char>,
    keys: Seq<Seq<char>>,
    f: Fields,
)
    requires
        text::lower(a) == text::lower(b),
        is_name(a),
        is_name(b),
    ensures
        authorized(a, keys, f) == authorized(b, keys, f),
{
}

/// Law: every key opens, wherever it stands in the list: a request whose first value of
/// the header is that key is authorized, whatever further values it has.
pub proof fn law_every_key_opens(
    header: Seq<char>,
    keys: Seq<Seq<char>>,
    i: int,
    f: Fields,
    more: Seq<Seq<u8>>,
)
    requires
        0 <= i < keys.len(),
        is_name(header),
        f.dom().contains(text::lower(header)),
        f[text::lower(header)] == seq![encode_utf8(keys[i])] + more,
    ensures
        authorized(header, keys, f),
{
    assert(f[text::lower(header)][0] == encode_utf8(keys[i]));
}

/// Law: nothing else opens: neither a request without the header nor one whose first
/// value of it differs from every key.
pub proof fn law_only_keys_open(header: Seq<char>, keys: Seq<Seq<char>>, f: Fields)
    requires
        !f.dom().contains(text::lower(header)) || forall|j: int|
            0 <= j < keys.len() ==> encode_utf8(#[trigger] keys[j]) != f[text::lower(header)][0],
    ensures
        !authorized(header, keys, f),
{
}

} // verus!

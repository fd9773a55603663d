//! Method filtering: a method that is not in the route's list is answered with 405
//! and an `Allow` header.

use vstd::prelude::*;

use crate::text;

verus! {

/// The methods a route allows.
pub struct MethodStage {
    pub allow: Vec<String>,
}

/// Whether `method` is one of `allow`, up to the case of ASCII letters.
pub open spec fn method_allowed(allow: Seq<Seq<char>>, method: Seq<char>) -> bool {
    exists|i: int| 0 <= i < allow.len() && text::lower(#[trigger] allow[i]) == text::lower(method)
}

impl MethodStage {
    /// The stage for a route's methods.
    pub fn new(methods: &[String]) -> (s: MethodStage)
        ensures
            text::views(s.allow@) == text::views(methods@),
    {
        MethodStage { allow: text::copy_strings(methods) }
    }

    /// Whether the route allows `method`.
    pub fn allows(&self, method: &str) -> (r: bool)
        ensures
            r == method_allowed(text::views(self.allow@), method@),
    {
        let ghost allow = text::views(self.allow@);
        let mut i: usize = 0;
        while i < self.allow.len()
            invariant
                i <= self.allow@.len(),
                allow == text::views(self.allow@),
                forall|j: int|
                    0 <= j < i ==> text::lower(#[trigger] allow[j]) != text::lower(method@),
            decreases self.allow@.len() - i,
        {
            assert(allow[i as int] == self.allow@[i as int]@);
            if text::eq_ignore_ascii_case(self.allow[i].as_str(), method) {
                return true;
            }
            i += 1;
        }
        false
    }
}

/// Law: a method is allowed if it is any of those listed, wherever it stands in the
/// list and whatever the case of its letters, and not if it is none of them.
pub proof fn law_every_listed_method_is_allowed(
    allow: Seq<Seq<char>>,
    i: int,
    method: Seq<char>,
)
    requires
        0 <= i < allow.len(),
    ensures
        method_allowed(allow, allow[i]),
        method_allowed(allow, text::lower(allow[i])),
        (forall|j: int|
            0 <= j < allow.len() ==> text::lower(#[trigger] allow[j]) != text::lower(method))
            ==> !method_allowed(allow, method),
        !method_allowed(Seq::<Seq<char>>::empty(), method),
{
    assert(text::lower(text::lower(allow[i])) =~= text::lower(allow[i]));
}

} // verus!

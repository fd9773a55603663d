//! URIs of upstream targets.

use vstd::prelude::*;

verus! {

/// [`hyper::Uri`], whose parts are given by [`uri_parts`].
#[verifier::external_type_specification]
#[verifier::external_body]
pub struct ExUri(hyper::Uri);

/// The parts of a URI that decide where a request goes.
#[verifier::ext_equal]
pub struct UriParts {
    pub scheme: Option<Seq<char>>,
    pub authority: Option<Seq<char>>,
}

/// The parts of a parsed URI.
pub uninterp spec fn uri_parts(u: hyper::Uri) -> UriParts;

/// What parsing the text as a `hyper::Uri` gives: its parts, or the text of the
/// error.
pub uninterp spec fn parsed_uri(s: Seq<char>) -> Result<UriParts, Seq<char>>;

/// Calls `<hyper::Uri as FromStr>::from_str`, and shows the error of a text that is
/// no URI. The grammar is left to that function; its result depends on the text
/// alone and is named by [`parsed_uri`].
#[verifier::external_body]
pub(crate) fn parse_uri(s: &str) -> (u: Result<hyper::Uri, String>)
    ensures
        u is Ok == parsed_uri(s@) is Ok,
        u is Ok ==> uri_parts(u->Ok_0) == parsed_uri(s@)->Ok_0,
        u is Err ==> u->Err_0@ == parsed_uri(s@)->Err_0,
{
    s.parse::<hyper::Uri>().map_err(|e| e.to_string())
}

/// Calls `hyper::Uri::scheme_str`.
#[verifier::external_body]
pub(crate) fn scheme_of(u: &hyper::Uri) -> (s: Option<&str>)
    ensures
        s is Some == uri_parts(*u).scheme is Some,
        s is Some ==> s->0@ == uri_parts(*u).scheme->0,
{
    u.scheme_str()
}

/// Calls `hyper::Uri::authority`, and `as_str` on what it returns.
#[verifier::external_body]
pub(crate) fn authority_of(u: &hyper::Uri) -> (a: Option<&str>)
    ensures
        a is Some == uri_parts(*u).authority is Some,
        a is Some ==> a->0@ == uri_parts(*u).authority->0,
{
    u.authority().map(|a| a.as_str())
}

} // verus!

//! The request-target is a URI reference; only its path component matters
//! to routing. Reading that component is delegated to the fluent-uri crate
//! behind one trusted wrapper.

use vstd::prelude::*;

verus! {

/// The path component of the URI reference written by `s`, if `s` is a
/// well-formed URI reference. What RFC 3986 makes of a byte string is a
/// function of that string alone.
pub uninterp spec fn uri_ref_path(s: Seq<u8>) -> Option<Seq<u8>>;

/// Relies on fluent_uri's `UriRef::parse` (the RFC 3986 `URI-reference`
/// grammar) and `UriRef::path`: whether the target bytes parse, and which
/// path component they hold, depend on those bytes alone.
#[verifier::external_body]
pub(crate) fn parse_uri_path(target: &[u8]) -> (r: Option<Vec<u8>>)
    ensures
        r.deep_view() == uri_ref_path(target@),
{
    match core::str::from_utf8(target) {
        Ok(s) => match fluent_uri::UriRef::parse(s) {
            Ok(u) => Some(u.path().as_str().as_bytes().to_vec()),
            Err(_) => None,
        },
        Err(_) => None,
    }
}

} // verus!

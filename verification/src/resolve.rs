//! Relative-reference resolution against the manifest URL.
//!
//! Resolution follows the standard rules for URL references (scheme,
//! authority, path and query inheritance). The `url` crate performs it;
//! the library names its result and builds the parser's contract on that
//! name.

use vstd::prelude::*;

verus! {

/// The absolute URL (in serialized form) that a manifest line denotes
/// against a base URL, or `None` where the base is not an absolute URL,
/// the line is not valid UTF-8, or the pair does not resolve. The result
/// depends on the two inputs alone.
pub uninterp spec fn resolve_of(base: Seq<char>, line: Seq<u8>) -> Option<Seq<char>>;

/// Relies on `url::Url::parse` and `url::Url::join`: standard
/// relative-reference resolution of `line` against the absolute URL
/// `base`, returning the serialized absolute URL. A line that is not
/// UTF-8 does not resolve.
#[verifier::external_body]
pub(crate) fn resolve_reference(base: &str, line: &Vec<u8>) -> (r: Option<String>)
    ensures
        (r is Some) == (resolve_of(base@, line@) is Some),
        r matches Some(u) ==> u@ == resolve_of(base@, line@).unwrap(),
{
    let rel = match core::str::from_utf8(line) {
        Ok(rel) => rel,
        Err(_) => return None,
    };
    let parsed = match url::Url::parse(base) {
        Ok(b) => b.join(rel),
        Err(_) => return None,
    };
    match parsed {
        Ok(u) => Some(String::from(u)),
        Err(_) => None,
    }
}

} // verus!

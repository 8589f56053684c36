//! The URI of a request line.

use crate::error::{ParseFailure, RequestParseError};
use crate::field::{scan_field, scan_word};
use crate::table::StringMap;
use vstd::prelude::*;

verus! {

/// Whether `http::Uri` accepts a text as an absolute or relative URI.
pub uninterp spec fn uri_accepts(s: Seq<char>) -> bool;

/// Relies on `http::Uri::from_str`: whether the text parses as a URI, which depends
/// on the text alone.
#[verifier::external_body]
pub(crate) fn is_uri(s: &str) -> (r: bool)
    ensures
        r == uri_accepts(s@),
{
    <http::Uri as core::str::FromStr>::from_str(s).is_ok()
}

/// The URI field of a request line that begins at or after `s[pos]`: the field must
/// parse as a URI. Gives its text and the index past it.
pub open spec fn uri_field(s: Seq<char>, pos: int, vars: Map<Seq<char>, Seq<char>>) -> Result<
    (Seq<char>, int),
    ParseFailure,
> {
    match scan_word(s, pos, Seq::empty(), vars, false) {
        Err(n) => Err(ParseFailure::VariableNotFound(n)),
        Ok((w, p)) => if uri_accepts(w) {
            Ok((w, p))
        } else {
            Err(ParseFailure::InvalidUri(w))
        },
    }
}

/// Reads the URI field that begins at or after `chars[pos]`.
pub fn parse_uri_input(chars: &[char], pos: usize, vars: &StringMap) -> (r: Result<
    (String, usize),
    RequestParseError,
>)
    requires
        pos <= chars@.len(),
        vars.wf(),
    ensures
        match uri_field(chars@, pos as int, vars@) {
            Ok((u, p)) => r matches Ok((t, q)) && t@ == u && q == p && q <= chars@.len(),
            Err(f) => r matches Err(e) && e@ == f,
        },
{
    let (word, next) = scan_field(chars, pos, vars, false)?;
    if is_uri(word.as_str()) {
        Ok((word, next))
    } else {
        Err(RequestParseError::InvalidUri(word))
    }
}

} // verus!

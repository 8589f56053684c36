//! The optional HTTP version of a request line.

use crate::field::{scan_field, scan_word};
use crate::table::StringMap;
use crate::text::{chars_of, same_text, sub_vec, trim, trim_bounds};
use vstd::prelude::*;

verus! {

/// The HTTP versions that a request line can ask for.
#[derive(Debug, Clone, Copy, PartialEq, Eq, Structural)]
pub enum HttpVersion {
    Http09,
    Http10,
    Http11,
    Http2,
    Http3,
}

/// The version that a lower-case text names, if any.
pub open spec fn version_named(t: Seq<char>) -> Option<HttpVersion> {
    if t == "http/0.9"@ {
        Some(HttpVersion::Http09)
    } else if t == "http/1.0"@ || t == "http/1"@ {
        Some(HttpVersion::Http10)
    } else if t == "http/1.1"@ {
        Some(HttpVersion::Http11)
    } else if t == "http/2.0"@ || t == "http/2"@ {
        Some(HttpVersion::Http2)
    } else if t == "http/3.0"@ || t == "http/3"@ {
        Some(HttpVersion::Http3)
    } else {
        None
    }
}

/// What `str::to_lowercase` makes of a text.
pub uninterp spec fn lower_of(s: Seq<char>) -> Seq<char>;

/// Relies on `str::to_lowercase`: the lower-case form of the text, a function of the
/// text alone.
#[verifier::external_body]
fn to_lower(s: &str) -> (r: String)
    ensures
        r@ == lower_of(s@),
{
    s.to_lowercase()
}

/// The version field of a request line that begins at or after `s[pos]`: the field,
/// in lower case and trimmed, names the version. A reference to an unset variable is
/// read as plain text, and no field or an unknown text gives no version.
pub open spec fn version_field(s: Seq<char>, pos: int, vars: Map<Seq<char>, Seq<char>>) -> Option<
    HttpVersion,
> {
    match scan_word(s, pos, Seq::empty(), vars, true) {
        Ok((w, _)) => if w.len() == 0 {
            None
        } else {
            version_named(trim(lower_of(w)))
        },
        Err(_) => None,
    }
}

impl HttpVersion {
    /// The version that a lower-case text names exactly, if any.
    pub fn from_name(t: &[char]) -> (r: Option<HttpVersion>)
        ensures
            r == version_named(t@),
    {
        if same_text(t, "http/0.9") {
            Some(HttpVersion::Http09)
        } else if same_text(t, "http/1.0") || same_text(t, "http/1") {
            Some(HttpVersion::Http10)
        } else if same_text(t, "http/1.1") {
            Some(HttpVersion::Http11)
        } else if same_text(t, "http/2.0") || same_text(t, "http/2") {
            Some(HttpVersion::Http2)
        } else if same_text(t, "http/3.0") || same_text(t, "http/3") {
            Some(HttpVersion::Http3)
        } else {
            None
        }
    }

    /// The version that a lower-case version text names once trimmed, if any.
    pub fn from_lower_text(lower: &str) -> (r: Option<HttpVersion>)
        ensures
            r == version_named(trim(lower@)),
    {
        let lower_chars = chars_of(lower);
        let (lo, hi) = trim_bounds(lower_chars.as_slice());
        let trimmed = sub_vec(lower_chars.as_slice(), lo, hi);
        HttpVersion::from_name(trimmed.as_slice())
    }
}

/// Reads the version field that begins at or after `chars[pos]`.
pub fn parse_http_version(chars: &[char], pos: usize, vars: &StringMap) -> (r: Option<HttpVersion>)
    requires
        pos <= chars@.len(),
        vars.wf(),
    ensures
        r == version_field(chars@, pos as int, vars@),
{
    let word = match scan_field(chars, pos, vars, true) {
        Ok((w, _)) => w,
        Err(_) => {
            return None;
        },
    };
    let word_chars = chars_of(word.as_str());
    if word_chars.len() == 0 {
        return None;
    }
    let lower = to_lower(word.as_str());
    HttpVersion::from_lower_text(lower.as_str())
}

} // verus!

//! The method of a request line.

use crate::error::{ParseFailure, RequestParseError};
use crate::field::{scan_field, scan_word};
use crate::table::StringMap;
use crate::text::{chars_of, same_text};
use vstd::prelude::*;

verus! {

/// The standard HTTP methods.
#[derive(Debug, Clone, Copy, PartialEq, Eq, Structural)]
pub enum HttpMethod {
    Get,
    Post,
    Put,
    Patch,
    Delete,
    Head,
    Options,
    Connect,
    Trace,
}

/// The token that names a method.
pub open spec fn method_name(m: HttpMethod) -> Seq<char> {
    match m {
        HttpMethod::Get => "GET"@,
        HttpMethod::Post => "POST"@,
        HttpMethod::Put => "PUT"@,
        HttpMethod::Patch => "PATCH"@,
        HttpMethod::Delete => "DELETE"@,
        HttpMethod::Head => "HEAD"@,
        HttpMethod::Options => "OPTIONS"@,
        HttpMethod::Connect => "CONNECT"@,
        HttpMethod::Trace => "TRACE"@,
    }
}

/// The method that `t` names, if any.
pub open spec fn method_named(t: Seq<char>) -> Option<HttpMethod> {
    if t == "GET"@ {
        Some(HttpMethod::Get)
    } else if t == "POST"@ {
        Some(HttpMethod::Post)
    } else if t == "PUT"@ {
        Some(HttpMethod::Put)
    } else if t == "PATCH"@ {
        Some(HttpMethod::Patch)
    } else if t == "DELETE"@ {
        Some(HttpMethod::Delete)
    } else if t == "HEAD"@ {
        Some(HttpMethod::Head)
    } else if t == "OPTIONS"@ {
        Some(HttpMethod::Options)
    } else if t == "CONNECT"@ {
        Some(HttpMethod::Connect)
    } else if t == "TRACE"@ {
        Some(HttpMethod::Trace)
    } else {
        None
    }
}

/// What `str::to_uppercase` makes of a text.
pub uninterp spec fn upper_of(s: Seq<char>) -> Seq<char>;

/// Relies on `str::to_uppercase`: the upper-case form of the text, a function of the
/// text alone.
#[verifier::external_body]
fn to_upper(s: &str) -> (r: String)
    ensures
        r@ == upper_of(s@),
{
    s.to_uppercase()
}

/// The method field of a request line that begins at or after `s[pos]`: the field,
/// in upper case, must name a standard method. Gives the method and the index past
/// the field.
pub open spec fn method_field(s: Seq<char>, pos: int, vars: Map<Seq<char>, Seq<char>>) -> Result<
    (HttpMethod, int),
    ParseFailure,
> {
    match scan_word(s, pos, Seq::empty(), vars, false) {
        Err(n) => Err(ParseFailure::VariableNotFound(n)),
        Ok((w, p)) => match method_named(upper_of(w)) {
            Some(m) => Ok((m, p)),
            None => Err(ParseFailure::InvalidHttpMethod(upper_of(w))),
        },
    }
}

impl HttpMethod {
    /// The token that names the method.
    pub fn as_str(&self) -> (r: &'static str)
        ensures
            r@ == method_name(*self),
    {
        match self {
            HttpMethod::Get => "GET",
            HttpMethod::Post => "POST",
            HttpMethod::Put => "PUT",
            HttpMethod::Patch => "PATCH",
            HttpMethod::Delete => "DELETE",
            HttpMethod::Head => "HEAD",
            HttpMethod::Options => "OPTIONS",
            HttpMethod::Connect => "CONNECT",
            HttpMethod::Trace => "TRACE",
        }
    }

    /// The method that `t` names exactly, if any.
    pub fn from_name(t: &[char]) -> (r: Option<HttpMethod>)
        ensures
            r == method_named(t@),
    {
        if same_text(t, "GET") {
            Some(HttpMethod::Get)
        } else if same_text(t, "POST") {
            Some(HttpMethod::Post)
        } else if same_text(t, "PUT") {
            Some(HttpMethod::Put)
        } else if same_text(t, "PATCH") {
            Some(HttpMethod::Patch)
        } else if same_text(t, "DELETE") {
            Some(HttpMethod::Delete)
        } else if same_text(t, "HEAD") {
            Some(HttpMethod::Head)
        } else if same_text(t, "OPTIONS") {
            Some(HttpMethod::Options)
        } else if same_text(t, "CONNECT") {
            Some(HttpMethod::Connect)
        } else if same_text(t, "TRACE") {
            Some(HttpMethod::Trace)
        } else {
            None
        }
    }
}

/// Reads the method field that begins at or after `chars[pos]`.
pub fn parse_method_input(chars: &[char], pos: usize, vars: &StringMap) -> (r: Result<
    (HttpMethod, usize),
    RequestParseError,
>)
    requires
        pos <= chars@.len(),
        vars.wf(),
    ensures
        match method_field(chars@, pos as int, vars@) {
            Ok((m, p)) => r matches Ok((n, q)) && n == m && q == p && q <= chars@.len(),
            Err(f) => r matches Err(e) && e@ == f,
        },
{
    let (word, next) = scan_field(chars, pos, vars, false)?;
    let upper = to_upper(word.as_str());
    let upper_chars = chars_of(upper.as_str());
    match HttpMethod::from_name(upper_chars.as_slice()) {
        Some(m) => Ok((m, next)),
        None => Err(RequestParseError::InvalidHttpMethod(upper)),
    }
}

} // verus!

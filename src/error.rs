//! The ways in which parsing a request file fails.

use vstd::prelude::*;

verus! {

/// Why a request file could not be parsed.
#[derive(Debug)]
pub enum RequestParseError {
    InvalidHeaderName(String),
    InvalidHeaderValue(String),
    InvalidHttpMethod(String),
    InvalidUri(String),
    MissingMethod,
    MissingUri,
    VariableNotFound(String),
}

/// A parse error with its texts as character sequences.
pub enum ParseFailure {
    InvalidHeaderName(Seq<char>),
    InvalidHeaderValue(Seq<char>),
    InvalidHttpMethod(Seq<char>),
    InvalidUri(Seq<char>),
    MissingMethod,
    MissingUri,
    VariableNotFound(Seq<char>),
}

impl View for RequestParseError {
    type V = ParseFailure;

    open spec fn view(&self) -> ParseFailure {
        match self {
            RequestParseError::InvalidHeaderName(s) => ParseFailure::InvalidHeaderName(s@),
            RequestParseError::InvalidHeaderValue(s) => ParseFailure::InvalidHeaderValue(s@),
            RequestParseError::InvalidHttpMethod(s) => ParseFailure::InvalidHttpMethod(s@),
            RequestParseError::InvalidUri(s) => ParseFailure::InvalidUri(s@),
            RequestParseError::MissingMethod => ParseFailure::MissingMethod,
            RequestParseError::MissingUri => ParseFailure::MissingUri,
            RequestParseError::VariableNotFound(s) => ParseFailure::VariableNotFound(s@),
        }
    }
}

/// `before`, then `text`, then `after`.
pub open spec fn framed(before: &str, text: Seq<char>, after: &str) -> Seq<char> {
    before@ + text + after@
}

/// The message that describes a parse error.
pub open spec fn message_of(e: ParseFailure) -> Seq<char> {
    match e {
        ParseFailure::InvalidHeaderName(s) => framed("invalid header name '", s, "'"),
        ParseFailure::InvalidHeaderValue(s) => framed("invalid header value '", s, "'"),
        ParseFailure::InvalidHttpMethod(s) => framed("invalid HTTP method '", s, "'"),
        ParseFailure::InvalidUri(s) => framed("invalid uri '", s, "'"),
        ParseFailure::MissingMethod => "missing HTTP method"@,
        ParseFailure::MissingUri => "missing uri"@,
        ParseFailure::VariableNotFound(s) => framed("variable '", s, "' was used, but not set"),
    }
}

fn frame(before: &str, text: &String, after: &str) -> (r: String)
    ensures
        r@ == framed(before, text@, after),
{
    let mut r = String::from_str(before);
    r.append(text.as_str());
    r.append(after);
    r
}

impl RequestParseError {
    /// A sentence that describes the error.
    pub fn message(&self) -> (r: String)
        ensures
            r@ == message_of(self@),
    {
        match self {
            RequestParseError::InvalidHeaderName(s) => frame("invalid header name '", s, "'"),
            RequestParseError::InvalidHeaderValue(s) => frame("invalid header value '", s, "'"),
            RequestParseError::InvalidHttpMethod(s) => frame("invalid HTTP method '", s, "'"),
            RequestParseError::InvalidUri(s) => frame("invalid uri '", s, "'"),
            RequestParseError::MissingMethod => String::from_str("missing HTTP method"),
            RequestParseError::MissingUri => String::from_str("missing uri"),
            RequestParseError::VariableNotFound(s) => frame(
                "variable '",
                s,
                "' was used, but not set",
            ),
        }
    }
}

} // verus!

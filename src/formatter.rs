//! Pretty-printing of response bodies by content type.

use crate::text::{chars_of, same_text, trim, trimmed_string};
use vstd::prelude::*;

verus! {

/// The content types that bodies can be pretty-printed for.
#[derive(Debug, Clone, Copy, PartialEq, Eq, Structural)]
pub enum ContentType {
    Json,
    Unknown,
}

/// The subtype of a media type as `mime::Mime` parses it (lower case, before any
/// `+suffix`), or `None` when the text is no media type.
pub uninterp spec fn mime_subtype_of(s: Seq<char>) -> Option<Seq<char>>;

/// Relies on `mime::Mime::from_str` and `Mime::subtype`: the subtype of the parsed
/// media type, a function of the text alone.
#[verifier::external_body]
fn mime_subtype(s: &str) -> (r: Option<String>)
    ensures
        r is Some <==> mime_subtype_of(s@) is Some,
        r is Some ==> r->0@ == mime_subtype_of(s@)->0,
{
    match <mime::Mime as core::str::FromStr>::from_str(s) {
        Ok(m) => Some(m.subtype().as_str().to_owned()),
        Err(_) => None,
    }
}

/// The content type that a `Content-Type` value names: JSON when its subtype is
/// `json`.
pub open spec fn content_type_of(s: Seq<char>) -> ContentType {
    match mime_subtype_of(s) {
        Some(t) => if t == "json"@ {
            ContentType::Json
        } else {
            ContentType::Unknown
        },
        None => ContentType::Unknown,
    }
}

impl ContentType {
    /// The content type of a media type with the given subtype.
    pub fn from_subtype(subtype: &str) -> (r: ContentType)
        ensures
            r == (if subtype@ == "json"@ {
                ContentType::Json
            } else {
                ContentType::Unknown
            }),
    {
        let chars = chars_of(subtype);
        if same_text(chars.as_slice(), "json") {
            ContentType::Json
        } else {
            ContentType::Unknown
        }
    }
}

impl<'a> From<&'a str> for ContentType {
    fn from(value: &'a str) -> ContentType {
        match mime_subtype(value) {
            Some(t) => ContentType::from_subtype(t.as_str()),
            None => ContentType::Unknown,
        }
    }
}

impl<'a> vstd::std_specs::convert::FromSpecImpl<&'a str> for ContentType {
    open spec fn obeys_from_spec() -> bool {
        true
    }

    open spec fn from_spec(v: &'a str) -> ContentType {
        content_type_of(v@)
    }
}

impl Default for ContentType {
    fn default() -> (r: ContentType)
        ensures
            r == ContentType::Unknown,
    {
        ContentType::Unknown
    }
}

/// The text that `jsonformat::format` makes of JSON, indented by two spaces.
pub uninterp spec fn json_layout_of(s: Seq<char>) -> Seq<char>;

/// Relies on `jsonformat::format` with two-space indentation: its result depends on
/// the text alone.
#[verifier::external_body]
fn json_layout(s: &str) -> (r: String)
    ensures
        r@ == json_layout_of(s@),
{
    jsonformat::format(s, jsonformat::Indentation::TwoSpace)
}

/// JSON laid out with two-space indentation, without surrounding whitespace.
pub fn format_json(input: &str) -> (r: String)
    ensures
        r@ == trim(json_layout_of(input@)),
{
    let laid_out = json_layout(input);
    let chars = chars_of(laid_out.as_str());
    trimmed_string(chars.as_slice())
}

/// The pretty-printed body for a content type, if there is a layout for it.
pub open spec fn format_spec(input: Seq<char>, content_type: ContentType) -> Option<Seq<char>> {
    match content_type {
        ContentType::Json => Some(trim(json_layout_of(input))),
        ContentType::Unknown => None,
    }
}

/// The body pretty-printed for its content type; `None` for an unknown type.
pub fn format(input: &str, content_type: ContentType) -> (r: Option<String>)
    ensures
        match format_spec(input@, content_type) {
            Some(t) => r matches Some(s) && s@ == t,
            None => r is None,
        },
{
    match content_type {
        ContentType::Json => Some(format_json(input)),
        ContentType::Unknown => None,
    }
}

/// The body text to show: as it came when pretty-printing is off or the content type
/// has no layout, else pretty-printed.
pub open spec fn shown_body(body: Seq<char>, content_type: ContentType, disable_pretty_printing: bool) -> Seq<char> {
    if disable_pretty_printing {
        body
    } else {
        match format_spec(body, content_type) {
            Some(t) => t,
            None => body,
        }
    }
}

/// The body text to show for a response.
pub fn body_text(body: &str, content_type: ContentType, disable_pretty_printing: bool) -> (r: String)
    ensures
        r@ == shown_body(body@, content_type, disable_pretty_printing),
{
    if disable_pretty_printing {
        return body.to_owned();
    }
    match format(body, content_type) {
        Some(formatted) => formatted,
        None => body.to_owned(),
    }
}

} // verus!

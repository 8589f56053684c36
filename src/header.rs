//! Header lines: `Name: Value`.

use crate::error::{ParseFailure, RequestParseError};
use crate::table::StringMap;
use crate::text::{chars_of, trim, trimmed_string};
use crate::variables::{reference_at, substitute_at};
use vstd::prelude::*;

verus! {

/// A header that a header line declares; the name is in lower case.
#[derive(Debug)]
pub struct HeaderToken {
    pub key: String,
    pub value: String,
}

/// A token character of HTTP: a letter, a digit, or one of ``!#$%&'*+-.^_`|~``.
pub open spec fn is_token_char(c: char) -> bool {
    ('a' <= c <= 'z') || ('A' <= c <= 'Z') || ('0' <= c <= '9') || c == '!' || c == '#' || c
        == '$' || c == '%' || c == '&' || c == '\'' || c == '*' || c == '+' || c == '-' || c == '.'
        || c == '^' || c == '_' || c == '`' || c == '|' || c == '~'
}

/// A header name: one to 65535 token characters.
pub open spec fn is_header_name(s: Seq<char>) -> bool {
    1 <= s.len() <= 65535 && forall|i: int| 0 <= i < s.len() ==> is_token_char(#[trigger] s[i])
}

/// A header value: no control character but the tab.
pub open spec fn is_header_value(s: Seq<char>) -> bool {
    forall|i: int|
        0 <= i < s.len() ==> ((#[trigger] s[i]) as u32 >= 32 && s[i] as u32 != 127) || s[i]
            == '\t'
}

/// `c` with an ASCII capital made small.
pub open spec fn lower_char(c: char) -> char {
    if 'A' <= c <= 'Z' {
        (((c as u8) + 32) as u8) as char
    } else {
        c
    }
}

/// `s` with its ASCII capitals made small.
pub open spec fn ascii_lower(s: Seq<char>) -> Seq<char> {
    s.map_values(|c: char| lower_char(c))
}

/// Relies on `http::HeaderName::from_str`: it accepts one to 65535 token characters,
/// and the name it builds is the text in ASCII lower case.
#[verifier::external_body]
pub(crate) fn header_name_of(s: &str) -> (r: Option<String>)
    ensures
        r is Some <==> is_header_name(s@),
        r is Some ==> r->0@ == ascii_lower(s@),
{
    match <http::HeaderName as core::str::FromStr>::from_str(s) {
        Ok(name) => Some(name.as_str().to_owned()),
        Err(_) => None,
    }
}

/// Relies on `http::HeaderValue::from_str`: it refuses a text with a byte under 32,
/// other than the tab, or the byte 127.
#[verifier::external_body]
pub(crate) fn is_value(s: &str) -> (r: bool)
    ensures
        r == is_header_value(s@),
{
    http::HeaderValue::from_str(s).is_ok()
}

/// The name and the value of a header line read from `s[i]` on, after `key` and
/// `value`: the first `:` outside a reference ends the name. A reference to an unset
/// variable is an error, named by the result.
pub open spec fn scan_header(
    s: Seq<char>,
    i: int,
    key: Seq<char>,
    value: Seq<char>,
    in_key: bool,
    vars: Map<Seq<char>, Seq<char>>,
) -> Result<(Seq<char>, Seq<char>), Seq<char>>
    decreases s.len() - i,
{
    if i < 0 || i >= s.len() {
        Ok((key, value))
    } else if s[i] == ':' {
        if in_key {
            scan_header(s, i + 1, key, value, false, vars)
        } else {
            scan_header(s, i + 1, key, value.push(':'), false, vars)
        }
    } else {
        match reference_at(s, i) {
            Some((name, len)) => {
                if !vars.contains_key(name) {
                    Err(name)
                } else if in_key {
                    scan_header(s, i + 1 + len, key + vars[name], value, true, vars)
                } else {
                    scan_header(s, i + 1 + len, key, value + vars[name], false, vars)
                }
            },
            None => if in_key {
                scan_header(s, i + 1, key.push(s[i]), value, true, vars)
            } else {
                scan_header(s, i + 1, key, value.push(s[i]), false, vars)
            },
        }
    }
}

/// What a header line declares: nothing when its name part is empty once trimmed; else the
/// trimmed name, which must be a header name and is kept in lower case, and the
/// trimmed value, which must be a header value.
pub open spec fn header_field(s: Seq<char>, vars: Map<Seq<char>, Seq<char>>) -> Result<
    Option<(Seq<char>, Seq<char>)>,
    ParseFailure,
> {
    match scan_header(s, 0, Seq::empty(), Seq::empty(), true, vars) {
        Err(n) => Err(ParseFailure::VariableNotFound(n)),
        Ok((k, v)) => if trim(k).len() == 0 {
            Ok(None)
        } else if !is_header_name(trim(k)) {
            Err(ParseFailure::InvalidHeaderName(trim(k)))
        } else if !is_header_value(trim(v)) {
            Err(ParseFailure::InvalidHeaderValue(trim(v)))
        } else {
            Ok(Some((ascii_lower(trim(k)), trim(v))))
        },
    }
}

/// Reads a header line.
pub fn parse_header(line: &[char], vars: &StringMap) -> (r: Result<
    Option<HeaderToken>,
    RequestParseError,
>)
    requires
        vars.wf(),
    ensures
        match header_field(line@, vars@) {
            Ok(None) => r matches Ok(None),
            Ok(Some((k, v))) => r matches Ok(Some(h)) && h.key@ == k && h.value@ == v,
            Err(f) => r matches Err(e) && e@ == f,
        },
{
    let mut key = String::new();
    let mut value = String::new();
    let mut is_key = true;
    let mut i: usize = 0;
    while i < line.len()
        invariant
            i <= line@.len(),
            vars.wf(),
            scan_header(line@, 0, Seq::empty(), Seq::empty(), true, vars@) == scan_header(
                line@,
                i as int,
                key@,
                value@,
                is_key,
                vars@,
            ),
        decreases line@.len() - i,
    {
        let ch = line[i];
        if ch == ':' {
            if is_key {
                is_key = false;
            } else {
                value.push(ch);
            }
            i = i + 1;
            continue;
        }
        if ch == '{' {
            match substitute_at(line, i, vars) {
                Ok(Some((v, next))) => {
                    if is_key {
                        key.append(v.as_str());
                    } else {
                        value.append(v.as_str());
                    }
                    i = next;
                    continue;
                },
                Ok(None) => {},
                Err(e) => {
                    return Err(e);
                },
            }
        }
        if is_key {
            key.push(ch);
        } else {
            value.push(ch);
        }
        i = i + 1;
    }
    let key_chars = chars_of(key.as_str());
    let value_chars = chars_of(value.as_str());
    let trimmed_key = trimmed_string(key_chars.as_slice());
    if trimmed_key.as_str().is_empty() {
        return Ok(None);
    }
    let trimmed_value = trimmed_string(value_chars.as_slice());
    let name = match header_name_of(trimmed_key.as_str()) {
        Some(n) => n,
        None => {
            return Err(RequestParseError::InvalidHeaderName(trimmed_key));
        },
    };
    if !is_value(trimmed_value.as_str()) {
        return Err(RequestParseError::InvalidHeaderValue(trimmed_value));
    }
    Ok(Some(HeaderToken { key: name, value: trimmed_value }))
}

/// Lower-casing keeps a header name a header name, and a second time changes nothing.
pub proof fn lemma_ascii_lower_header_name(s: Seq<char>)
    requires
        is_header_name(s),
    ensures
        is_header_name(ascii_lower(s)),
        ascii_lower(ascii_lower(s)) == ascii_lower(s),
{
    assert forall|i: int| 0 <= i < s.len() implies is_token_char(#[trigger] ascii_lower(s)[i])
        && lower_char(lower_char(s[i])) == lower_char(s[i]) by {
        let c = s[i];
        if 'A' <= c <= 'Z' {
            assert('a' <= lower_char(c) <= 'z');
        }
    }
    assert(ascii_lower(ascii_lower(s)) =~= ascii_lower(s));
}

#[verifier::external_type_specification]
#[verifier::external_body]
#[verifier::reject_recursive_types(T)]
pub struct ExHeaderMap<T>(http::HeaderMap<T>);

#[verifier::external_type_specification]
#[verifier::external_body]
pub struct ExHeaderValue(http::HeaderValue);

/// The headers an `http::HeaderMap` holds: for each name, its value as text.
pub uninterp spec fn header_entries(m: http::HeaderMap) -> Map<Seq<char>, Seq<char>>;

/// Relies on `http::HeaderMap::new`: a new map holds no header.
#[verifier::external_body]
pub fn empty_headers() -> (r: http::HeaderMap)
    ensures
        header_entries(r) =~= Map::empty(),
{
    http::HeaderMap::new()
}

/// Relies on `http::HeaderMap::try_insert`: on success the value replaces every
/// earlier value of the name, whose text the map keeps in lower case, and other names
/// keep theirs; when the map cannot grow it is left as it was. Growth is refused only
/// once the index table holds 32768 slots and at least 6554 names, so it succeeds
/// while the map holds fewer than 6553 names. The name and value are first made into
/// `http::HeaderName` and `http::HeaderValue`, which accept them.
#[verifier::external_body]
pub fn insert_header(m: &mut http::HeaderMap, name: &str, value: &str) -> (r: bool)
    requires
        is_header_name(name@),
        is_header_value(value@),
    ensures
        r ==> header_entries(*final(m)) == header_entries(*old(m)).insert(
            ascii_lower(name@),
            value@,
        ),
        !r ==> header_entries(*final(m)) == header_entries(*old(m)),
        header_entries(*old(m)).dom().len() < 6553 ==> r,
{
    match (
        <http::HeaderName as core::str::FromStr>::from_str(name),
        http::HeaderValue::from_str(value),
    ) {
        (Ok(n), Ok(v)) => m.try_insert(n, v).is_ok(),
        _ => false,
    }
}

} // verus!

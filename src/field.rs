//! Reading a whitespace-delimited field of a request line, with its references
//! replaced by their values.

use crate::error::{ParseFailure, RequestParseError};
use crate::table::StringMap;
use crate::text::{is_whitespace, is_ws};
use crate::variables::{reference_at, substitute_at};
use vstd::prelude::*;

verus! {

/// The field that begins at or after `s[i]`, after `acc`, and the index just past the
/// whitespace that ends it (or the length of `s`). Whitespace before the field is
/// skipped. A reference to an unset variable is an error, unless `lenient`, where its
/// `{` is read as a plain character.
pub open spec fn scan_word(
    s: Seq<char>,
    i: int,
    acc: Seq<char>,
    vars: Map<Seq<char>, Seq<char>>,
    lenient: bool,
) -> Result<(Seq<char>, int), Seq<char>>
    decreases s.len() - i,
{
    if i < 0 || i >= s.len() {
        Ok((acc, s.len() as int))
    } else if is_ws(s[i]) {
        if acc.len() > 0 {
            Ok((acc, i + 1))
        } else {
            scan_word(s, i + 1, acc, vars, lenient)
        }
    } else {
        match reference_at(s, i) {
            Some((name, len)) => {
                if vars.contains_key(name) {
                    scan_word(s, i + 1 + len, acc + vars[name], vars, lenient)
                } else if lenient {
                    scan_word(s, i + 1, acc.push(s[i]), vars, lenient)
                } else {
                    Err(name)
                }
            },
            None => scan_word(s, i + 1, acc.push(s[i]), vars, lenient),
        }
    }
}

/// Reads the field that begins at or after `chars[pos]`.
pub fn scan_field(chars: &[char], pos: usize, vars: &StringMap, lenient: bool) -> (r: Result<
    (String, usize),
    RequestParseError,
>)
    requires
        pos <= chars@.len(),
        vars.wf(),
    ensures
        match scan_word(chars@, pos as int, Seq::empty(), vars@, lenient) {
            Ok((w, p)) => r matches Ok((t, q)) && t@ == w && q == p && q <= chars@.len(),
            Err(n) => r matches Err(e) && e@ == ParseFailure::VariableNotFound(n),
        },
{
    let mut word = String::new();
    let mut word_len: usize = 0;
    let mut i = pos;
    while i < chars.len()
        invariant
            pos <= i <= chars@.len(),
            vars.wf(),
            word_len == 0 <==> word@.len() == 0,
            scan_word(chars@, pos as int, Seq::empty(), vars@, lenient) == scan_word(
                chars@,
                i as int,
                word@,
                vars@,
                lenient,
            ),
        decreases chars@.len() - i,
    {
        let ch = chars[i];
        if is_whitespace(ch) {
            if word_len > 0 {
                return Ok((word, i + 1));
            }
            i = i + 1;
            continue;
        }
        if ch == '{' {
            match substitute_at(chars, i, vars) {
                Ok(Some((value, next))) => {
                    word.append(value.as_str());
                    if value.as_str().unicode_len() > 0 {
                        word_len = 1;
                    }
                    i = next;
                    continue;
                },
                Ok(None) => {},
                Err(e) => {
                    if !lenient {
                        return Err(e);
                    }
                },
            }
        }
        word.push(ch);
        word_len = 1;
        i = i + 1;
    }
    Ok((word, chars.len()))
}

} // verus!

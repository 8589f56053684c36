//! Variable references (`{{ name }}`), their substitution, and `@name = value`
//! declarations.

use crate::error::{ParseFailure, RequestParseError};
use crate::table::StringMap;
use crate::text::{
    is_whitespace, is_ws, lemma_trim_end_keeps, lemma_trim_end_prefix, lemma_trim_end_push,
    lemma_trim_start_append, lemma_trim_start_push, lemma_trim_start_suffix, no_ws, string_of,
    trim, trim_end, trim_start, trimmed_string,
};
use vstd::prelude::*;

verus! {

pub open spec fn is_brace(c: char) -> bool {
    c == '{' || c == '}'
}

/// A name that a reference can hold: not empty, and without whitespace.
pub open spec fn is_identifier(s: Seq<char>) -> bool {
    s.len() > 0 && no_ws(s)
}

/// `rest`, the text after an opening `{`, holds a second `{`, then a name padded with
/// whitespace and free of braces, closed by `}}` at `k` and `k + 1`.
pub open spec fn closes_reference(rest: Seq<char>, k: int) -> bool {
    &&& 1 <= k
    &&& k + 1 < rest.len()
    &&& rest[0] == '{'
    &&& forall|i: int| 1 <= i < k ==> !is_brace(#[trigger] rest[i])
    &&& rest[k] == '}'
    &&& rest[k + 1] == '}'
    &&& is_identifier(trim(rest.subrange(1, k)))
}

/// The reference that `rest`, the text after an opening `{`, begins: its name and the
/// number of characters of `rest` that it takes.
pub open spec fn reference(rest: Seq<char>) -> Option<(Seq<char>, int)> {
    if exists|k: int| closes_reference(rest, k) {
        let k = choose|k: int| closes_reference(rest, k);
        Some((trim(rest.subrange(1, k)), k + 2))
    } else {
        None
    }
}

/// The reference that begins at `s[i]`, if `s[i]` is a `{` that opens one.
pub open spec fn reference_at(s: Seq<char>, i: int) -> Option<(Seq<char>, int)> {
    if 0 <= i < s.len() && s[i] == '{' {
        reference(s.skip(i + 1))
    } else {
        None
    }
}

/// The text of `s` from `i` on with each reference replaced by its value, after
/// `acc`; or the name of the first reference whose variable is not set.
pub open spec fn resolve(s: Seq<char>, i: int, acc: Seq<char>, vars: Map<Seq<char>, Seq<char>>) -> Result<
    Seq<char>,
    Seq<char>,
>
    decreases s.len() - i,
{
    if i < 0 || i >= s.len() {
        Ok(acc)
    } else {
        match reference_at(s, i) {
            Some((name, len)) => {
                if vars.contains_key(name) {
                    resolve(s, i + 1 + len, acc + vars[name], vars)
                } else {
                    Err(name)
                }
            },
            None => resolve(s, i + 1, acc.push(s[i]), vars),
        }
    }
}

proof fn lemma_closes_unique(rest: Seq<char>, k1: int, k2: int)
    requires
        closes_reference(rest, k1),
        closes_reference(rest, k2),
    ensures
        k1 == k2,
{
    if k1 < k2 {
        assert(!is_brace(rest[k1]));
    } else if k2 < k1 {
        assert(!is_brace(rest[k2]));
    }
}

/// When a reference's name has whitespace after it and then more text, no closing
/// makes an identifier of it.
proof fn lemma_no_identifier_after_gap(x: Seq<char>, c: char, y: Seq<char>)
    requires
        trim_start(x).len() > 0,
        is_ws(trim_start(x).last()),
        !is_ws(c),
    ensures
        !is_identifier(trim(x.push(c) + y)),
{
    let ts = trim_start(x);
    assert(x.push(c) + y =~= x + (seq![c] + y));
    lemma_trim_start_append(x, seq![c] + y);
    assert(ts + (seq![c] + y) =~= ts.push(c) + y);
    lemma_trim_end_keeps(ts.push(c), y);
    let t = trim(x.push(c) + y);
    assert(t.take(ts.len() as int + 1) == ts.push(c));
    assert(t[ts.len() - 1] == t.take(ts.len() as int + 1)[ts.len() - 1]);
    assert(is_ws(t[ts.len() - 1]));
}

/// Reads a reference from `chars[pos..]`, the text just after an opening `{`.
/// Returns the trimmed name and the number of characters taken, or `None` when the
/// text does not begin a reference.
pub fn parse_variable(chars: &[char], pos: usize) -> (r: Option<(String, usize)>)
    requires
        pos <= chars@.len(),
    ensures
        match reference(chars@.skip(pos as int)) {
            Some((name, len)) => r matches Some((n, j)) && n@ == name && j == len,
            None => r is None,
        },
{
    let ghost rest = chars@.skip(pos as int);
    if pos >= chars.len() || chars[pos] != '{' {
        proof {
            assert forall|k: int| !closes_reference(rest, k) by {
                if 1 <= k && k + 1 < rest.len() {
                    assert(rest[0] == chars@[pos as int]);
                }
            }
        }
        return None;
    }
    let mut name = String::new();
    let mut name_len: usize = 0;
    let mut is_key = true;
    let mut i: usize = pos + 1;
    let ghost mut ts: Seq<char> = Seq::empty();
    assert(rest.subrange(1, 1) =~= Seq::<char>::empty());
    while i < chars.len()
        invariant
            pos < i <= chars@.len(),
            rest == chars@.skip(pos as int),
            rest[0] == '{',
            forall|m: int| 1 <= m < i - pos ==> !is_brace(#[trigger] rest[m]),
            ts == trim_start(rest.subrange(1, i - pos)),
            name@ == trim_end(ts),
            no_ws(name@),
            name_len == name@.len(),
            is_key <==> (ts.len() == 0 || !is_ws(ts.last())),
            !is_key ==> name@.len() > 0,
            ts.len() == 0 ==> name@.len() == 0,
        decreases chars@.len() - i,
    {
        let ch = chars[i];
        let ghost inner = rest.subrange(1, i - pos);
        assert(rest[i - pos] == ch);
        assert(rest.subrange(1, i - pos + 1) =~= inner.push(ch));
        if ch == '{' {
            proof {
                assert forall|k: int| !closes_reference(rest, k) by {
                    if closes_reference(rest, k) {
                        if k > i - pos {
                            assert(!is_brace(rest[i - pos]));
                        }
                    }
                }
            }
            return None;
        }
        if ch == '}' {
            if i + 1 < chars.len() && chars[i + 1] == '}' {
                assert(rest[i - pos + 1] == chars@[i + 1]);
                if name_len == 0 {
                    proof {
                        lemma_trim_end_prefix(ts);
                        assert forall|k: int| !closes_reference(rest, k) by {
                            if closes_reference(rest, k) {
                                lemma_closes_unique(rest, k, i - pos);
                            }
                        }
                    }
                    return None;
                }
                proof {
                    assert(trim(inner) == name@);
                    assert(closes_reference(rest, i - pos));
                    let k = choose|k: int| closes_reference(rest, k);
                    lemma_closes_unique(rest, k, i - pos);
                }
                return Some((name, i + 2 - pos));
            }
            proof {
                assert forall|k: int| !closes_reference(rest, k) by {
                    if closes_reference(rest, k) {
                        if k > i - pos {
                            assert(!is_brace(rest[i - pos]));
                        } else if k == i - pos {
                            assert(rest[k + 1] == chars@[i + 1]);
                        }
                    }
                }
            }
            return None;
        }
        proof {
            lemma_trim_start_push(inner, ch);
            lemma_trim_start_suffix(inner);
        }
        if is_whitespace(ch) {
            proof {
                if ts.len() > 0 {
                    lemma_trim_end_push(ts, ch);
                }
                ts = trim_start(inner.push(ch));
            }
            if name_len > 0 {
                is_key = false;
            }
        } else if !is_key {
            proof {
                assert forall|k: int| !closes_reference(rest, k) by {
                    if closes_reference(rest, k) {
                        if k > i - pos {
                            let y = rest.subrange(i - pos + 1, k);
                            assert(rest.subrange(1, k) =~= inner.push(ch) + y);
                            lemma_no_identifier_after_gap(inner, ch, y);
                        } else {
                            assert(k != i - pos);
                        }
                    }
                }
            }
            return None;
        } else {
            proof {
                lemma_trim_end_prefix(ts);
                lemma_trim_end_push(ts, ch);
                if ts.len() > 0 {
                    assert(trim_end(ts) == ts);
                }
                ts = trim_start(inner.push(ch));
                assert(ts =~= name@.push(ch));
            }
            name.push(ch);
            name_len = name_len + 1;
        }
        i = i + 1;
    }
    proof {
        assert forall|k: int| !closes_reference(rest, k) by {}
    }
    None
}

/// At `chars[i]`, a `{`: the value of the reference that it opens and the index just
/// past that reference; `None` when it opens none.
pub fn substitute_at(chars: &[char], i: usize, vars: &StringMap) -> (r: Result<
    Option<(String, usize)>,
    RequestParseError,
>)
    requires
        i < chars@.len(),
        chars@[i as int] == '{',
        vars.wf(),
    ensures
        match reference_at(chars@, i as int) {
            None => r matches Ok(None),
            Some((name, len)) => if vars@.contains_key(name) {
                r matches Ok(Some((v, next))) && v@ == vars@[name] && next == i + 1 + len
                    && next <= chars@.len()
            } else {
                r matches Err(e) && e@ == ParseFailure::VariableNotFound(name)
            },
        },
{
    let n = chars.len();
    match parse_variable(chars, i + 1) {
        None => Ok(None),
        Some((name, jumps)) => {
            proof {
                let rest = chars@.skip(i + 1);
                let k = choose|k: int| closes_reference(rest, k);
                assert(closes_reference(rest, k));
                assert(rest.len() == n - i - 1);
            }
            match vars.get(name.as_str()) {
                Some(value) => Ok(Some((value.clone(), i + 1 + jumps))),
                None => Err(RequestParseError::VariableNotFound(name)),
            }
        },
    }
}

/// `chars[start..]` with each reference replaced by its value.
pub fn resolve_text(chars: &[char], start: usize, vars: &StringMap) -> (r: Result<
    String,
    RequestParseError,
>)
    requires
        start <= chars@.len(),
        vars.wf(),
    ensures
        match resolve(chars@, start as int, Seq::empty(), vars@) {
            Ok(t) => r matches Ok(s) && s@ == t,
            Err(n) => r matches Err(e) && e@ == ParseFailure::VariableNotFound(n),
        },
{
    let mut out = String::new();
    let mut i = start;
    while i < chars.len()
        invariant
            start <= i <= chars@.len(),
            vars.wf(),
            resolve(chars@, start as int, Seq::empty(), vars@) == resolve(
                chars@,
                i as int,
                out@,
                vars@,
            ),
        decreases chars@.len() - i,
    {
        if chars[i] == '{' {
            match substitute_at(chars, i, vars) {
                Ok(Some((value, next))) => {
                    out.append(value.as_str());
                    i = next;
                    continue;
                },
                Ok(None) => {},
                Err(e) => {
                    return Err(e);
                },
            }
        }
        out.push(chars[i]);
        i = i + 1;
    }
    Ok(out)
}

/// `s[k]` is the first `c` in `s`.
pub open spec fn first_at(s: Seq<char>, c: char, k: int) -> bool {
    0 <= k < s.len() && s[k] == c && forall|j: int| 0 <= j < k ==> s[j] != c
}

/// What a declaration line, without its `@`, declares: the trimmed text before the
/// first `=` names the variable, and the trimmed text after it, with references
/// replaced, is its value. A line without `=` declares nothing.
pub open spec fn declaration(s: Seq<char>, vars: Map<Seq<char>, Seq<char>>) -> Result<
    Option<(Seq<char>, Seq<char>)>,
    ParseFailure,
> {
    if exists|k: int| first_at(s, '=', k) {
        let k = choose|k: int| first_at(s, '=', k);
        match resolve(s, k + 1, Seq::empty(), vars) {
            Ok(v) => Ok(Some((trim(s.take(k)), trim(v)))),
            Err(n) => Err(ParseFailure::VariableNotFound(n)),
        }
    } else {
        Ok(None)
    }
}

/// Reads a variable declaration from `chars`, the text of a line after its `@`.
pub fn parse_variable_declaration(chars: &[char], vars: &StringMap) -> (r: Result<
    Option<(String, String)>,
    RequestParseError,
>)
    requires
        vars.wf(),
    ensures
        match declaration(chars@, vars@) {
            Ok(None) => r matches Ok(None),
            Ok(Some((name, value))) => r matches Ok(Some((n, v))) && n@ == name && v@ == value,
            Err(f) => r matches Err(e) && e@ == f,
        },
{
    let mut k: usize = 0;
    while k < chars.len() && chars[k] != '='
        invariant
            k <= chars@.len(),
            forall|j: int| 0 <= j < k ==> chars@[j] != '=',
        decreases chars@.len() - k,
    {
        k = k + 1;
    }
    if k == chars.len() {
        assert(!exists|j: int| first_at(chars@, '=', j));
        return Ok(None);
    }
    proof {
        assert(first_at(chars@, '=', k as int));
        let j = choose|j: int| first_at(chars@, '=', j);
        if j < k {
            assert(chars@[j] != '=');
        } else if j > k {
            assert(chars@[k as int] != '=');
        }
    }
    let value = resolve_text(chars, k + 1, vars)?;
    let name = string_of(chars, 0, k);
    let value_chars = crate::text::chars_of(value.as_str());
    proof {
        assert(chars@.subrange(0, k as int) =~= chars@.take(k as int));
    }
    let name_chars = crate::text::chars_of(name.as_str());
    Ok(Some((trimmed_string(name_chars.as_slice()), trimmed_string(value_chars.as_slice()))))
}

} // verus!

//! Properties of the parser that relate several calls or hold for all inputs.

use crate::error::{ParseFailure, RequestParseError};
use crate::field::scan_word;
use crate::uri::{uri_accepts, uri_field};
use crate::header::{ascii_lower, header_field, is_header_name, is_header_value, scan_header};
use crate::request::{
    assemble, empty_partial, parse_outcome, request_views, requests_of, HittRequest, PartialView,
    RequestView,
};
use crate::text::{
    all_ws, is_ws, join_lines, lines_of, split_newlines, starts_with, strip_cr, trim, trim_end,
    trim_start,
};
use crate::tokenize::{request_line, scan_line, scan_lines, tokens_of, ParserMode, Scan, TokenView};
use crate::variables::{
    closes_reference, declaration, first_at, is_brace, is_identifier, reference, reference_at, resolve,
};
use vstd::prelude::*;

verus! {

/// The view of a parse result: the requests, or the error.
pub open spec fn outcome_view(r: Result<Vec<HittRequest>, RequestParseError>) -> Result<
    Seq<RequestView>,
    ParseFailure,
> {
    match r {
        Ok(v) => Ok(request_views(v@)),
        Err(e) => Err(e@),
    }
}

/// Parsing is a function of the buffer and the variables: two parses of the same
/// buffer with the same variables give the same requests, or the same error.
pub proof fn lemma_parse_is_deterministic(
    buffer: Seq<char>,
    vars: Map<Seq<char>, Seq<char>>,
    first: Result<Vec<HittRequest>, RequestParseError>,
    second: Result<Vec<HittRequest>, RequestParseError>,
)
    requires
        parse_outcome(buffer, vars, first),
        parse_outcome(buffer, vars, second),
    ensures
        outcome_view(first) == outcome_view(second),
{
}

/// Text without a `{` holds no reference, so resolving it gives it back.
pub proof fn lemma_resolve_plain(s: Seq<char>, i: int, acc: Seq<char>, vars: Map<Seq<char>, Seq<char>>)
    requires
        0 <= i <= s.len(),
        forall|j: int| 0 <= j < s.len() ==> s[j] != '{',
    ensures
        resolve(s, i, acc, vars) == Ok::<Seq<char>, Seq<char>>(acc + s.skip(i)),
    decreases s.len() - i,
{
    if i < s.len() {
        lemma_resolve_plain(s, i + 1, acc.push(s[i]), vars);
        assert(acc.push(s[i]) + s.skip(i + 1) =~= acc + s.skip(i));
    } else {
        assert(acc + s.skip(i) =~= acc);
    }
}

/// Inside a body, a line that starts like a comment (`#` or `//`) is no comment: when
/// it is no `###` separator and holds no reference, it joins the body as it stands.
pub proof fn lemma_comment_in_body_is_text(st: Scan, line: Seq<char>)
    requires
        st.mode == ParserMode::Body,
        starts_with(trim(line), "#"@) || starts_with(trim(line), "//"@),
        !starts_with(trim(line), "###"@),
        forall|j: int| 0 <= j < line.len() ==> line[j] != '{',
    ensures
        scan_line(st, line) == Ok::<Scan, ParseFailure>(
            Scan { body: st.body.push(line), ..st },
        ),
{
    lemma_resolve_plain(line, 0, Seq::empty(), st.vars);
    assert(Seq::<char>::empty() + line.skip(0) =~= line);
}

/// The text of a reference to `name`: `{{`, padding, the name, padding, `}}`.
pub open spec fn reference_text(before: Seq<char>, name: Seq<char>, after: Seq<char>) -> Seq<char> {
    seq!['{', '{'] + before + name + after + seq!['}', '}']
}

/// Text that begins with `{{` changes no reference that begins before it.
proof fn lemma_reference_before_braces(y: Seq<char>, x: Seq<char>)
    requires
        x.len() >= 2,
        x[0] == '{',
        x[1] == '{',
    ensures
        reference(y + x) == reference(y),
{
    let r = y + x;
    assert forall|k: int| closes_reference(r, k) <==> closes_reference(y, k) by {
        if closes_reference(r, k) {
            if k + 1 >= y.len() {
                if y.len() == 0 {
                    assert(r[1] == '{');
                    if k > 1 {
                        assert(!is_brace(r[1]));
                    }
                } else if k + 1 == y.len() {
                    assert(r[k + 1] == x[0]);
                } else if k == y.len() {
                    assert(r[k] == x[0]);
                } else {
                    assert(!is_brace(r[y.len() as int]));
                }
            } else {
                assert(r.subrange(1, k) =~= y.subrange(1, k));
                assert(forall|i: int| 1 <= i < k ==> r[i] == y[i]);
            }
        }
        if closes_reference(y, k) {
            assert(r.subrange(1, k) =~= y.subrange(1, k));
            assert(forall|i: int| 1 <= i < k ==> r[i] == y[i]);
        }
    }
    if exists|k: int| closes_reference(y, k) {
        let k = choose|k: int| closes_reference(y, k);
        let k2 = choose|k: int| closes_reference(r, k);
        assert(closes_reference(r, k));
        if k < k2 {
            assert(!is_brace(r[k]));
        } else if k2 < k {
            assert(!is_brace(r[k2]));
        }
        assert(r.subrange(1, k) =~= y.subrange(1, k));
    }
}

/// Resolving text that `{{` follows: up to the `{{`, it goes as for the text alone.
proof fn lemma_resolve_prefix(
    pre: Seq<char>,
    x: Seq<char>,
    i: int,
    acc: Seq<char>,
    vars: Map<Seq<char>, Seq<char>>,
)
    requires
        0 <= i <= pre.len(),
        x.len() >= 2,
        x[0] == '{',
        x[1] == '{',
    ensures
        resolve(pre + x, i, acc, vars) == match resolve(pre, i, acc, vars) {
            Ok(a) => resolve(pre + x, pre.len() as int, a, vars),
            Err(n) => Err(n),
        },
    decreases pre.len() - i,
{
    let s = pre + x;
    if i < pre.len() {
        assert(s[i] == pre[i]);
        assert(s.skip(i + 1) =~= pre.skip(i + 1) + x);
        lemma_reference_before_braces(pre.skip(i + 1), x);
        assert(reference_at(s, i) == reference_at(pre, i));
        match reference_at(pre, i) {
            Some((name, len)) => {
                let y = pre.skip(i + 1);
                let k = choose|k: int| closes_reference(y, k);
                assert(closes_reference(y, k));
                if vars.contains_key(name) {
                    lemma_resolve_prefix(pre, x, i + 1 + len, acc + vars[name], vars);
                }
            },
            None => {
                lemma_resolve_prefix(pre, x, i + 1, acc.push(pre[i]), vars);
            },
        }
    } else {
        assert(resolve(pre, i, acc, vars) == Ok::<Seq<char>, Seq<char>>(acc));
    }
}

/// Resolving the part of a text after `w` goes as for that part alone.
proof fn lemma_resolve_suffix(
    w: Seq<char>,
    post: Seq<char>,
    j: int,
    acc: Seq<char>,
    vars: Map<Seq<char>, Seq<char>>,
)
    requires
        0 <= j <= post.len(),
    ensures
        resolve(w + post, w.len() + j, acc, vars) == resolve(post, j, acc, vars),
    decreases post.len() - j,
{
    let s = w + post;
    if j < post.len() {
        assert(s[w.len() + j] == post[j]);
        assert(s.skip(w.len() + j + 1) =~= post.skip(j + 1));
        match reference_at(post, j) {
            Some((name, len)) => {
                let y = post.skip(j + 1);
                let k = choose|k: int| closes_reference(y, k);
                assert(closes_reference(y, k));
                if vars.contains_key(name) {
                    lemma_resolve_suffix(w, post, j + 1 + len, acc + vars[name], vars);
                }
            },
            None => {
                lemma_resolve_suffix(w, post, j + 1, acc.push(post[j]), vars);
            },
        }
    }
}

/// What resolving gives after `acc` is `acc` followed by what it gives from nothing.
proof fn lemma_resolve_acc(s: Seq<char>, i: int, acc: Seq<char>, vars: Map<Seq<char>, Seq<char>>)
    requires
        0 <= i <= s.len(),
    ensures
        resolve(s, i, acc, vars) == match resolve(s, i, Seq::empty(), vars) {
            Ok(b) => Ok(acc + b),
            Err(n) => Err(n),
        },
    decreases s.len() - i,
{
    if i < s.len() {
        match reference_at(s, i) {
            Some((name, len)) => {
                let y = s.skip(i + 1);
                let k = choose|k: int| closes_reference(y, k);
                assert(closes_reference(y, k));
                if vars.contains_key(name) {
                    lemma_resolve_acc(s, i + 1 + len, acc + vars[name], vars);
                    lemma_resolve_acc(s, i + 1 + len, Seq::<char>::empty() + vars[name], vars);
                    assert(Seq::<char>::empty() + vars[name] =~= vars[name]);
                    match resolve(s, i + 1 + len, Seq::empty(), vars) {
                        Ok(b) => {
                            assert(acc + vars[name] + b =~= acc + (vars[name] + b));
                        },
                        Err(_) => {},
                    }
                }
            },
            None => {
                lemma_resolve_acc(s, i + 1, acc.push(s[i]), vars);
                lemma_resolve_acc(s, i + 1, Seq::<char>::empty().push(s[i]), vars);
                match resolve(s, i + 1, Seq::empty(), vars) {
                    Ok(b) => {
                        assert(acc.push(s[i]) + b =~= acc + (Seq::<char>::empty().push(s[i]) + b));
                    },
                    Err(_) => {},
                }
            },
        }
    } else {
        assert(acc + Seq::<char>::empty() =~= acc);
    }
}

/// Padding around a name is trimmed away.
proof fn lemma_trim_padded(before: Seq<char>, name: Seq<char>, after: Seq<char>)
    requires
        all_ws(before),
        all_ws(after),
        is_identifier(name),
    ensures
        trim(before + name + after) == name,
{
    let s = before + name + after;
    crate::text::lemma_trim_start_skip(s, before.len() as int);
    assert(s.skip(before.len() as int) =~= name + after);
    assert((name + after)[0] == name[0]);
    assert(trim_start(name + after) == name + after);
    crate::text::lemma_trim_end_take(name + after, name.len() as int);
    assert((name + after).take(name.len() as int) =~= name);
    assert(!is_ws(name.last()));
    assert(trim_end(name) == name);
}

/// A reference text that `pre` comes before is read as a reference to `name`, taking
/// the whole reference text.
proof fn lemma_reference_text_at(
    pre: Seq<char>,
    before: Seq<char>,
    name: Seq<char>,
    after: Seq<char>,
    post: Seq<char>,
)
    requires
        all_ws(before),
        all_ws(after),
        is_identifier(name),
        forall|i: int| 0 <= i < name.len() ==> !is_brace(#[trigger] name[i]),
    ensures
        reference_at(pre + reference_text(before, name, after) + post, pre.len() as int) == Some(
            (name, reference_text(before, name, after).len() - 1),
        ),
{
    let x = reference_text(before, name, after);
    let s = pre + x + post;
    let rest = s.skip(pre.len() as int + 1);
    let k: int = 1 + before.len() as int + name.len() as int + after.len() as int;
    assert(rest =~= seq!['{'] + before + name + after + seq!['}', '}'] + post);
    assert(rest.subrange(1, k) =~= before + name + after);
    lemma_trim_padded(before, name, after);
    assert forall|i: int| 1 <= i < k implies !is_brace(#[trigger] rest[i]) by {
        assert(rest[i] == (before + name + after)[i - 1]);
        if i - 1 < before.len() {
            assert(is_ws(before[i - 1]));
        } else if i - 1 < before.len() + name.len() {
            assert(rest[i] == name[i - 1 - before.len()]);
        } else {
            assert(is_ws(after[i - 1 - before.len() - name.len()]));
        }
    }
    assert(closes_reference(rest, k));
    let k2 = choose|k: int| closes_reference(rest, k);
    if k2 < k {
        assert(!is_brace(rest[k2]));
    } else if k < k2 {
        assert(!is_brace(rest[k]));
    }
    assert(s[pre.len() as int] == '{');
    assert(reference_at(s, pre.len() as int) == Some((name, k + 2)));
}

/// Substituting a reference whose variable is set: the result is the text before it,
/// then the variable's value, then the text after it, each resolved on its own.
pub proof fn lemma_substitution(
    pre: Seq<char>,
    before: Seq<char>,
    name: Seq<char>,
    after: Seq<char>,
    post: Seq<char>,
    vars: Map<Seq<char>, Seq<char>>,
)
    requires
        all_ws(before),
        all_ws(after),
        is_identifier(name),
        forall|i: int| 0 <= i < name.len() ==> !is_brace(#[trigger] name[i]),
        vars.contains_key(name),
        resolve(pre, 0, Seq::empty(), vars) is Ok,
        resolve(post, 0, Seq::empty(), vars) is Ok,
    ensures
        resolve(pre + reference_text(before, name, after) + post, 0, Seq::empty(), vars)
            == Ok::<Seq<char>, Seq<char>>(
            resolve(pre, 0, Seq::empty(), vars)->Ok_0 + vars[name] + resolve(
                post,
                0,
                Seq::empty(),
                vars,
            )->Ok_0,
        ),
{
    let x = reference_text(before, name, after);
    let s = pre + x + post;
    let a = resolve(pre, 0, Seq::empty(), vars)->Ok_0;
    let b = resolve(post, 0, Seq::empty(), vars)->Ok_0;
    assert(s =~= pre + (x + post));
    lemma_resolve_prefix(pre, x + post, 0, Seq::empty(), vars);
    lemma_reference_text_at(pre, before, name, after, post);
    let k: int = 1 + before.len() as int + name.len() as int + after.len() as int;
    // The text after it.
    let w = pre + x;
    assert(s =~= w + post);
    assert(pre.len() + 1 + k + 2 == w.len());
    lemma_resolve_suffix(w, post, 0, a + vars[name], vars);
    lemma_resolve_acc(post, 0, a + vars[name], vars);
}

/// `s` holds no line break.
pub open spec fn one_line(s: Seq<char>) -> bool {
    forall|i: int| 0 <= i < s.len() ==> s[i] != '\n'
}

proof fn lemma_split_one_line(s: Seq<char>)
    requires
        one_line(s),
    ensures
        split_newlines(s) == seq![s],
    decreases s.len(),
{
    if s.len() > 0 {
        lemma_split_one_line(s.drop_last());
        assert(s.drop_last().push(s.last()) =~= s);
        assert(seq![s.drop_last()].update(0, s.drop_last().push(s.last())) =~= seq![s]);
    } else {
        assert(s =~= Seq::<char>::empty());
    }
}

proof fn lemma_split_append(x: Seq<char>, y: Seq<char>)
    requires
        one_line(y),
    ensures
        split_newlines(x + y) == split_newlines(x).update(
            split_newlines(x).len() - 1,
            split_newlines(x).last() + y,
        ),
    decreases y.len(),
{
    crate::text::lemma_split_newlines_nonempty(x);
    if y.len() == 0 {
        assert(x + y =~= x);
        assert(split_newlines(x).last() + y =~= split_newlines(x).last());
        assert(split_newlines(x).update(split_newlines(x).len() - 1, split_newlines(x).last())
            =~= split_newlines(x));
    } else {
        let y0 = y.drop_last();
        assert(one_line(y0));
        lemma_split_append(x, y0);
        assert((x + y).drop_last() =~= x + y0);
        assert((x + y).last() == y.last());
        assert(y[y.len() - 1] != '\n');
        crate::text::lemma_split_newlines_nonempty(x + y0);
        let p = split_newlines(x + y0);
        let q = split_newlines(x);
        assert(p.len() == q.len());
        assert(p.last() == q.last() + y0);
        assert(split_newlines(x + y) == p.update(p.len() - 1, p.last().push(y.last())));
        assert(q.last() + y0 + seq![y.last()] =~= q.last() + y);
        assert(p.last().push(y.last()) =~= q.last() + y);
        assert(p.update(p.len() - 1, p.last().push(y.last())) =~= q.update(q.len() - 1, q.last() + y));
    }
}

proof fn lemma_split_joined(lines: Seq<Seq<char>>)
    requires
        lines.len() >= 1,
        forall|i: int| 0 <= i < lines.len() ==> one_line(#[trigger] lines[i]),
    ensures
        split_newlines(join_lines(lines)) == lines,
    decreases lines.len(),
{
    if lines.len() == 1 {
        lemma_split_one_line(lines[0]);
        assert(seq![lines[0]] =~= lines);
    } else {
        let init = lines.drop_last();
        assert forall|i: int| 0 <= i < init.len() implies one_line(#[trigger] init[i]) by {
            assert(init[i] == lines[i]);
        }
        lemma_split_joined(init);
        let j = join_lines(init).push('\n');
        assert(one_line(lines.last()));
        lemma_split_append(j, lines.last());
        assert(j.drop_last() =~= join_lines(init));
        assert(split_newlines(j) == init.push(Seq::empty()));
        assert(Seq::<char>::empty() + lines.last() =~= lines.last());
        assert(init.push(Seq::empty()).update(init.len() as int, lines.last()) =~= lines);
    }
}

/// Lines joined with line breaks split back into the same lines, when none holds a
/// line break, none but the last ends with a carriage return, and the last is not
/// empty.
pub proof fn lemma_lines_of_joined(lines: Seq<Seq<char>>)
    requires
        lines.len() >= 1,
        forall|i: int| 0 <= i < lines.len() ==> one_line(#[trigger] lines[i]),
        forall|i: int| 0 <= i < lines.len() - 1 ==> strip_cr(#[trigger] lines[i]) == lines[i],
        lines.last().len() > 0,
    ensures
        lines_of(join_lines(lines)) == lines,
{
    lemma_split_joined(lines);
    assert(lines_of(join_lines(lines)) =~= lines);
}

/// A line that is read as a request line: not empty, no comment, no declaration, and
/// a method and a URI that parse.
pub open spec fn is_request_line(line: Seq<char>, vars: Map<Seq<char>, Seq<char>>) -> bool {
    let t = trim(line);
    &&& t.len() > 0
    &&& !starts_with(t, "#"@)
    &&& !starts_with(t, "//"@)
    &&& !starts_with(t, "@"@)
    &&& request_line(t, vars) is Ok
}

/// A line that is read as a header `name: value` line, and is no separator.
pub open spec fn is_header_line(
    line: Seq<char>,
    vars: Map<Seq<char>, Seq<char>>,
    name: Seq<char>,
    value: Seq<char>,
) -> bool {
    &&& !starts_with(trim(line), "###"@)
    &&& header_field(trim(line), vars) == Ok::<Option<(Seq<char>, Seq<char>)>, ParseFailure>(
        Some((name, value)),
    )
}

/// Under a request line, of two header lines with the same name the later one wins:
/// the request's headers hold that name once, with the later value.
pub proof fn lemma_last_header_wins(
    request: Seq<char>,
    first: Seq<char>,
    second: Seq<char>,
    vars: Map<Seq<char>, Seq<char>>,
    name: Seq<char>,
    value1: Seq<char>,
    value2: Seq<char>,
)
    requires
        one_line(request),
        one_line(first),
        one_line(second),
        strip_cr(request) == request,
        strip_cr(first) == first,
        is_request_line(request, vars),
        is_header_line(first, vars, name, value1),
        is_header_line(second, vars, name, value2),
    ensures
        requests_of(join_lines(seq![request, first, second]), vars) matches Ok(rs) && rs.len() == 1
            && rs[0].headers == map![name => value2],
{
    let lines = seq![request, first, second];
    assert(trim(second).len() > 0);
    assert(second.len() > 0) by {
        if second.len() == 0 {
            assert(second =~= Seq::<char>::empty());
            assert(trim(second) =~= Seq::<char>::empty());
        }
    }
    assert forall|i: int| 0 <= i < lines.len() - 1 implies strip_cr(#[trigger] lines[i])
        == lines[i] by {}
    lemma_lines_of_joined(lines);
    let start = Scan {
        mode: ParserMode::Request,
        vars,
        body: Seq::empty(),
        tokens: Seq::empty(),
    };
    let ts = request_line(trim(request), vars)->Ok_0;
    let s1 = Scan { mode: ParserMode::Headers, tokens: ts, ..start };
    assert(scan_line(start, request) == Ok::<Scan, ParseFailure>(s1)) by {
        assert(Seq::<TokenView>::empty() + ts =~= ts);
    }
    let h1 = TokenView::Header(name, value1);
    let h2 = TokenView::Header(name, value2);
    let s2 = Scan { tokens: ts.push(h1), ..s1 };
    let s3 = Scan { tokens: ts.push(h1).push(h2), ..s1 };
    assert(trim(first).len() > 0);
    assert(scan_line(s1, first) == Ok::<Scan, ParseFailure>(s2));
    assert(scan_line(s2, second) == Ok::<Scan, ParseFailure>(s3));
    assert(lines.drop_first() =~= seq![first, second]);
    assert(seq![first, second].drop_first() =~= seq![second]);
    assert(seq![second].drop_first() =~= Seq::<Seq<char>>::empty());
    assert(scan_lines(s3, Seq::empty()) == Ok::<Scan, ParseFailure>(s3));
    assert(scan_lines(s2, seq![second]) == Ok::<Scan, ParseFailure>(s3));
    assert(scan_lines(s1, seq![first, second]) == Ok::<Scan, ParseFailure>(s3));
    assert(scan_lines(start, lines) == Ok::<Scan, ParseFailure>(s3));
    let toks = ts.push(h1).push(h2);
    assert(tokens_of(join_lines(lines), vars) == Ok::<Seq<TokenView>, ParseFailure>(
        toks,
    ));
    // The request line gives a method, a URI, and maybe a version.
    let t = trim(request);
    let (m, p) = crate::method::method_field(t, 0, vars)->Ok_0;
    let (u, q) = crate::uri::uri_field(t, p, vars)->Ok_0;
    let p0 = empty_partial();
    let p1 = PartialView { method: Some(m), ..p0 };
    let p2 = PartialView { uri: Some(u), ..p1 };
    let p3 = match crate::version::version_field(t, q, vars) {
        Some(v) => PartialView { http_version: Some(v), ..p2 },
        None => p2,
    };
    let p4 = PartialView { headers: p3.headers.insert(name, value1), ..p3 };
    let p5 = PartialView { headers: p4.headers.insert(name, value2), ..p4 };
    let req = crate::request::build_spec(p5)->Ok_0;
    let tail = seq![h2];
    assert(tail.drop_first() =~= Seq::<TokenView>::empty());
    assert(assemble(Seq::empty(), p5, Seq::empty()) == Ok::<Seq<crate::request::RequestView>, ParseFailure>(seq![req])) by {
        assert(Seq::<crate::request::RequestView>::empty().push(req) =~= seq![req]);
    }
    assert(assemble(tail, p4, Seq::empty()) == assemble(Seq::empty(), p5, Seq::empty()));
    let tail2 = seq![h1, h2];
    assert(tail2.drop_first() =~= tail);
    assert(assemble(tail2, p3, Seq::empty()) == assemble(tail, p4, Seq::empty()));
    match crate::version::version_field(t, q, vars) {
        Some(v) => {
            assert(ts =~= seq![TokenView::Method(m), TokenView::Uri(u), TokenView::HttpVersion(v)]);
            assert(toks =~= seq![
                TokenView::Method(m),
                TokenView::Uri(u),
                TokenView::HttpVersion(v),
                h1,
                h2,
            ]);
            assert(toks.drop_first() =~= seq![TokenView::Uri(u), TokenView::HttpVersion(v), h1, h2]);
            assert(toks.drop_first().drop_first() =~= seq![TokenView::HttpVersion(v), h1, h2]);
            assert(toks.drop_first().drop_first().drop_first() =~= tail2);
            assert(assemble(toks.drop_first().drop_first(), p2, Seq::empty()) == assemble(tail2, p3, Seq::empty()));
            assert(assemble(toks.drop_first(), p1, Seq::empty()) == assemble(tail2, p3, Seq::empty()));
            assert(assemble(toks, p0, Seq::empty()) == assemble(tail2, p3, Seq::empty()));
        },
        None => {
            assert(ts =~= seq![TokenView::Method(m), TokenView::Uri(u)]);
            assert(toks =~= seq![TokenView::Method(m), TokenView::Uri(u), h1, h2]);
            assert(toks.drop_first() =~= seq![TokenView::Uri(u), h1, h2]);
            assert(toks.drop_first().drop_first() =~= tail2);
            assert(assemble(toks.drop_first(), p1, Seq::empty()) == assemble(tail2, p3, Seq::empty()));
            assert(assemble(toks, p0, Seq::empty()) == assemble(tail2, p3, Seq::empty()));
        },
    }
    assert(p5.headers =~= map![name => value2]);
}

/// Substitution in a declaration: the value of `name = text` is the text before the
/// reference, the variable's value, and the text after it, trimmed as a whole.
pub proof fn lemma_declaration_substitution(
    declared: Seq<char>,
    pre: Seq<char>,
    before: Seq<char>,
    name: Seq<char>,
    after: Seq<char>,
    post: Seq<char>,
    vars: Map<Seq<char>, Seq<char>>,
)
    requires
        forall|i: int| 0 <= i < declared.len() ==> declared[i] != '=',
        all_ws(before),
        all_ws(after),
        is_identifier(name),
        forall|i: int| 0 <= i < name.len() ==> !is_brace(#[trigger] name[i]),
        vars.contains_key(name),
        resolve(pre, 0, Seq::empty(), vars) is Ok,
        resolve(post, 0, Seq::empty(), vars) is Ok,
    ensures
        declaration(declared.push('=') + pre + reference_text(before, name, after) + post, vars)
            == Ok::<Option<(Seq<char>, Seq<char>)>, ParseFailure>(
            Some(
                (
                    trim(declared),
                    trim(
                        resolve(pre, 0, Seq::empty(), vars)->Ok_0 + vars[name] + resolve(
                            post,
                            0,
                            Seq::empty(),
                            vars,
                        )->Ok_0,
                    ),
                ),
            ),
        ),
{
    let w = declared.push('=');
    let rest = pre + reference_text(before, name, after) + post;
    let s = w + rest;
    assert(s =~= declared.push('=') + pre + reference_text(before, name, after) + post);
    let k = declared.len() as int;
    assert(s[k] == '=');
    assert forall|j: int| 0 <= j < k implies s[j] != '=' by {
        assert(s[j] == declared[j]);
    }
    assert(first_at(s, '=', k));
    let k2 = choose|j: int| first_at(s, '=', j);
    if k2 < k {
        assert(s[k2] != '=');
    } else if k < k2 {
        assert(s[k] != '=');
    }
    assert(s.take(k) =~= declared);
    lemma_resolve_suffix(w, rest, 0, Seq::empty(), vars);
    assert(w.len() + 0 == k + 1);
    lemma_substitution(pre, before, name, after, post, vars);
    assert(resolve(s, k + 1, Seq::empty(), vars) == resolve(rest, 0, Seq::empty(), vars));
}

/// A request line, a blank line and one body line make one request whose body is
/// that line with its references replaced.
pub proof fn lemma_single_body_line(
    request: Seq<char>,
    line: Seq<char>,
    vars: Map<Seq<char>, Seq<char>>,
)
    requires
        one_line(request),
        one_line(line),
        strip_cr(request) == request,
        line.len() > 0,
        is_request_line(request, vars),
        !starts_with(trim(line), "###"@),
        resolve(line, 0, Seq::empty(), vars) is Ok,
    ensures
        requests_of(join_lines(seq![request, Seq::empty(), line]), vars) matches Ok(rs)
            && rs.len() == 1 && rs[0].body == Some(resolve(line, 0, Seq::empty(), vars)->Ok_0),
{
    let lines = seq![request, Seq::<char>::empty(), line];
    assert forall|i: int| 0 <= i < lines.len() implies one_line(#[trigger] lines[i]) by {}
    assert(strip_cr(Seq::<char>::empty()) == Seq::<char>::empty());
    assert forall|i: int| 0 <= i < lines.len() - 1 implies strip_cr(#[trigger] lines[i])
        == lines[i] by {}
    lemma_lines_of_joined(lines);
    reveal_strlit("###");
    let start = Scan {
        mode: ParserMode::Request,
        vars,
        body: Seq::empty(),
        tokens: Seq::empty(),
    };
    let ts = request_line(trim(request), vars)->Ok_0;
    let s1 = Scan { mode: ParserMode::Headers, tokens: ts, ..start };
    assert(scan_line(start, request) == Ok::<Scan, ParseFailure>(s1)) by {
        assert(Seq::<TokenView>::empty() + ts =~= ts);
    }
    let s2 = Scan { mode: ParserMode::Body, ..s1 };
    let blank = Seq::<char>::empty();
    assert(trim(blank) =~= blank);
    assert(!starts_with(trim(blank), "###"@));
    assert(scan_line(s1, blank) == Ok::<Scan, ParseFailure>(s2));
    let l = resolve(line, 0, Seq::empty(), vars)->Ok_0;
    let s3 = Scan { body: seq![l], ..s2 };
    assert(Seq::<Seq<char>>::empty().push(l) =~= seq![l]);
    assert(scan_line(s2, line) == Ok::<Scan, ParseFailure>(s3));
    assert(lines.drop_first() =~= seq![blank, line]);
    assert(seq![blank, line].drop_first() =~= seq![line]);
    assert(seq![line].drop_first() =~= Seq::<Seq<char>>::empty());
    assert(scan_lines(s3, Seq::empty()) == Ok::<Scan, ParseFailure>(s3));
    assert(scan_lines(s2, seq![line]) == Ok::<Scan, ParseFailure>(s3));
    assert(scan_lines(s1, seq![blank, line]) == Ok::<Scan, ParseFailure>(s3));
    assert(scan_lines(start, lines) == Ok::<Scan, ParseFailure>(s3));
    assert(join_lines(seq![l]) == l);
    let b = TokenView::Body(Some(l));
    let toks = ts.push(b);
    assert(tokens_of(join_lines(lines), vars) == Ok::<Seq<TokenView>, ParseFailure>(toks));
    let t = trim(request);
    let (m, p) = crate::method::method_field(t, 0, vars)->Ok_0;
    let (u, q) = crate::uri::uri_field(t, p, vars)->Ok_0;
    let p0 = empty_partial();
    let p1 = PartialView { method: Some(m), ..p0 };
    let p2 = PartialView { uri: Some(u), ..p1 };
    let p3 = match crate::version::version_field(t, q, vars) {
        Some(v) => PartialView { http_version: Some(v), ..p2 },
        None => p2,
    };
    let req = crate::request::build_spec(PartialView { body: Some(l), ..p3 })->Ok_0;
    let tail = seq![b];
    assert(tail.drop_first() =~= Seq::<TokenView>::empty());
    assert(Seq::<RequestView>::empty().push(req) =~= seq![req]);
    assert(assemble(Seq::empty(), empty_partial(), seq![req]) == Ok::<
        Seq<RequestView>,
        ParseFailure,
    >(seq![req]));
    assert(assemble(tail, p3, Seq::empty()) == Ok::<Seq<RequestView>, ParseFailure>(seq![req]));
    match crate::version::version_field(t, q, vars) {
        Some(v) => {
            assert(ts =~= seq![TokenView::Method(m), TokenView::Uri(u), TokenView::HttpVersion(v)]);
            assert(toks.drop_first() =~= seq![TokenView::Uri(u), TokenView::HttpVersion(v), b]);
            assert(toks.drop_first().drop_first() =~= seq![TokenView::HttpVersion(v), b]);
            assert(toks.drop_first().drop_first().drop_first() =~= tail);
            assert(assemble(toks.drop_first().drop_first(), p2, Seq::empty()) == assemble(
                tail,
                p3,
                Seq::empty(),
            ));
            assert(assemble(toks.drop_first(), p1, Seq::empty()) == assemble(
                tail,
                p3,
                Seq::empty(),
            ));
        },
        None => {
            assert(ts =~= seq![TokenView::Method(m), TokenView::Uri(u)]);
            assert(toks.drop_first() =~= seq![TokenView::Uri(u), b]);
            assert(toks.drop_first().drop_first() =~= tail);
            assert(assemble(toks.drop_first(), p1, Seq::empty()) == assemble(
                tail,
                p3,
                Seq::empty(),
            ));
        },
    }
    assert(assemble(toks, p0, Seq::empty()) == assemble(tail, p3, Seq::empty()));
}

/// In a request file, a body line that starts like a comment (`#` or `//`) and holds no
/// reference is the body as it stands.
pub proof fn lemma_comment_line_is_body(
    request: Seq<char>,
    line: Seq<char>,
    vars: Map<Seq<char>, Seq<char>>,
)
    requires
        one_line(request),
        one_line(line),
        strip_cr(request) == request,
        is_request_line(request, vars),
        starts_with(trim(line), "#"@) || starts_with(trim(line), "//"@),
        !starts_with(trim(line), "###"@),
        forall|j: int| 0 <= j < line.len() ==> line[j] != '{',
    ensures
        requests_of(join_lines(seq![request, Seq::empty(), line]), vars) matches Ok(rs)
            && rs.len() == 1 && rs[0].body == Some(line),
{
    reveal_strlit("#");
    reveal_strlit("//");
    assert(line.len() > 0) by {
        if line.len() == 0 {
            assert(line =~= Seq::<char>::empty());
            assert(trim(line) =~= Seq::<char>::empty());
        }
    }
    lemma_resolve_plain(line, 0, Seq::empty(), vars);
    assert(Seq::<char>::empty() + line.skip(0) =~= line);
    lemma_single_body_line(request, line, vars);
}

/// In a request file, a body line with a reference to a set variable gives the text
/// before it, the value, and the text after it.
pub proof fn lemma_body_substitution(
    request: Seq<char>,
    pre: Seq<char>,
    before: Seq<char>,
    name: Seq<char>,
    after: Seq<char>,
    post: Seq<char>,
    vars: Map<Seq<char>, Seq<char>>,
)
    requires
        one_line(request),
        strip_cr(request) == request,
        is_request_line(request, vars),
        one_line(pre),
        one_line(post),
        one_line(before),
        one_line(after),
        one_line(name),
        !starts_with(trim(pre + reference_text(before, name, after) + post), "###"@),
        all_ws(before),
        all_ws(after),
        is_identifier(name),
        forall|i: int| 0 <= i < name.len() ==> !is_brace(#[trigger] name[i]),
        vars.contains_key(name),
        resolve(pre, 0, Seq::empty(), vars) is Ok,
        resolve(post, 0, Seq::empty(), vars) is Ok,
    ensures
        requests_of(
            join_lines(seq![request, Seq::empty(), pre + reference_text(before, name, after) + post]),
            vars,
        ) matches Ok(rs) && rs.len() == 1 && rs[0].body == Some(
            resolve(pre, 0, Seq::empty(), vars)->Ok_0 + vars[name] + resolve(
                post,
                0,
                Seq::empty(),
                vars,
            )->Ok_0,
        ),
{
    let x = reference_text(before, name, after);
    let line = pre + x + post;
    assert(one_line(line)) by {
        assert forall|i: int| 0 <= i < line.len() implies line[i] != '\n' by {
            if i < pre.len() {
                assert(line[i] == pre[i]);
            } else if i < pre.len() + x.len() {
                assert(line[i] == x[i - pre.len()]);
                let j = i - pre.len();
                if 2 <= j < 2 + before.len() {
                    assert(x[j] == before[j - 2]);
                } else if 2 + before.len() <= j < 2 + before.len() + name.len() {
                    assert(x[j] == name[j - 2 - before.len()]);
                } else if 2 + before.len() + name.len() <= j < x.len() - 2 {
                    assert(x[j] == after[j - 2 - before.len() - name.len()]);
                }
            } else {
                assert(line[i] == post[i - pre.len() - x.len()]);
            }
        }
    }
    lemma_substitution(pre, before, name, after, post, vars);
    lemma_single_body_line(request, line, vars);
}

/// The partial request that a request line sets: its method, URI and version.
pub open spec fn line_partial(t: Seq<char>, vars: Map<Seq<char>, Seq<char>>) -> PartialView {
    let (m, p) = crate::method::method_field(t, 0, vars)->Ok_0;
    let (u, q) = crate::uri::uri_field(t, p, vars)->Ok_0;
    PartialView {
        method: Some(m),
        uri: Some(u),
        headers: Map::empty(),
        body: None,
        http_version: crate::version::version_field(t, q, vars),
    }
}

/// The tokens of a request line set the partial request that the line describes.
proof fn lemma_assemble_line(
    t: Seq<char>,
    vars: Map<Seq<char>, Seq<char>>,
    rest: Seq<TokenView>,
    done: Seq<RequestView>,
)
    requires
        request_line(t, vars) is Ok,
    ensures
        assemble(request_line(t, vars)->Ok_0 + rest, empty_partial(), done) == assemble(
            rest,
            line_partial(t, vars),
            done,
        ),
{
    let ts = request_line(t, vars)->Ok_0;
    let toks = ts + rest;
    let (m, p) = crate::method::method_field(t, 0, vars)->Ok_0;
    let (u, q) = crate::uri::uri_field(t, p, vars)->Ok_0;
    let p1 = PartialView { method: Some(m), ..empty_partial() };
    let p2 = PartialView { uri: Some(u), ..p1 };
    match crate::version::version_field(t, q, vars) {
        Some(v) => {
            assert(toks.drop_first() =~= seq![TokenView::Uri(u), TokenView::HttpVersion(v)] + rest);
            assert(toks.drop_first().drop_first() =~= seq![TokenView::HttpVersion(v)] + rest);
            assert(toks.drop_first().drop_first().drop_first() =~= rest);
            assert(assemble(toks.drop_first().drop_first(), p2, done) == assemble(
                rest,
                line_partial(t, vars),
                done,
            ));
        },
        None => {
            assert(toks.drop_first() =~= seq![TokenView::Uri(u)] + rest);
            assert(toks.drop_first().drop_first() =~= rest);
            assert(p2 == line_partial(t, vars));
        },
    }
    assert(assemble(toks.drop_first(), p1, done) == assemble(rest, line_partial(t, vars), done));
}

/// Two request lines, separated by a blank line and a `###` line, make two requests
/// in the order of the file.
pub proof fn lemma_requests_in_order(
    first: Seq<char>,
    second: Seq<char>,
    vars: Map<Seq<char>, Seq<char>>,
)
    requires
        one_line(first),
        one_line(second),
        strip_cr(first) == first,
        is_request_line(first, vars),
        is_request_line(second, vars),
    ensures
        requests_of(join_lines(seq![first, Seq::empty(), "###"@, second]), vars) matches Ok(rs)
            && rs.len() == 2 && rs[0] == crate::request::build_spec(
            line_partial(trim(first), vars),
        )->Ok_0 && rs[1] == crate::request::build_spec(line_partial(trim(second), vars))->Ok_0,
{
    reveal_strlit("###");
    let sep = "###"@;
    let blank = Seq::<char>::empty();
    let lines = seq![first, blank, sep, second];
    assert(second.len() > 0) by {
        if second.len() == 0 {
            assert(second =~= Seq::<char>::empty());
            assert(trim(second) =~= Seq::<char>::empty());
        }
    }
    assert(one_line(sep));
    assert forall|i: int| 0 <= i < lines.len() implies one_line(#[trigger] lines[i]) by {}
    assert(strip_cr(blank) == blank);
    assert(strip_cr(sep) == sep);
    assert forall|i: int| 0 <= i < lines.len() - 1 implies strip_cr(#[trigger] lines[i])
        == lines[i] by {}
    lemma_lines_of_joined(lines);
    let start = Scan {
        mode: ParserMode::Request,
        vars,
        body: Seq::empty(),
        tokens: Seq::empty(),
    };
    let ts1 = request_line(trim(first), vars)->Ok_0;
    let ts2 = request_line(trim(second), vars)->Ok_0;
    let s1 = Scan { mode: ParserMode::Headers, tokens: ts1, ..start };
    assert(scan_line(start, first) == Ok::<Scan, ParseFailure>(s1)) by {
        assert(Seq::<TokenView>::empty() + ts1 =~= ts1);
    }
    let s2 = Scan { mode: ParserMode::Body, ..s1 };
    assert(trim(blank) =~= blank);
    assert(!starts_with(trim(blank), sep));
    assert(scan_line(s1, blank) == Ok::<Scan, ParseFailure>(s2));
    let b = TokenView::Body(None);
    let s3 = Scan { mode: ParserMode::Request, tokens: ts1.push(b), ..s2 };
    assert(trim(sep) =~= sep) by {
        assert(trim_start(sep) == sep);
        assert(trim_end(sep) == sep);
    }
    assert(sep.take(3) =~= sep);
    assert(scan_line(s2, sep) == Ok::<Scan, ParseFailure>(s3));
    let s4 = Scan { mode: ParserMode::Headers, tokens: ts1.push(b) + ts2, ..s3 };
    assert(scan_line(s3, second) == Ok::<Scan, ParseFailure>(s4));
    assert(lines.drop_first() =~= seq![blank, sep, second]);
    assert(seq![blank, sep, second].drop_first() =~= seq![sep, second]);
    assert(seq![sep, second].drop_first() =~= seq![second]);
    assert(seq![second].drop_first() =~= Seq::<Seq<char>>::empty());
    assert(scan_lines(s4, Seq::empty()) == Ok::<Scan, ParseFailure>(s4));
    assert(scan_lines(s3, seq![second]) == Ok::<Scan, ParseFailure>(s4));
    assert(scan_lines(s2, seq![sep, second]) == Ok::<Scan, ParseFailure>(s4));
    assert(scan_lines(s1, seq![blank, sep, second]) == Ok::<Scan, ParseFailure>(s4));
    assert(scan_lines(start, lines) == Ok::<Scan, ParseFailure>(s4));
    let toks = ts1.push(b) + ts2;
    assert(tokens_of(join_lines(lines), vars) == Ok::<Seq<TokenView>, ParseFailure>(toks));
    let rest = seq![b] + ts2;
    assert(toks =~= ts1 + rest);
    lemma_assemble_line(trim(first), vars, rest, Seq::empty());
    let lp1 = line_partial(trim(first), vars);
    let lp2 = line_partial(trim(second), vars);
    let r1 = crate::request::build_spec(PartialView { body: None, ..lp1 })->Ok_0;
    assert(PartialView { body: None, ..lp1 } == lp1);
    assert(rest.drop_first() =~= ts2);
    assert(ts2 =~= ts2 + Seq::<TokenView>::empty());
    lemma_assemble_line(trim(second), vars, Seq::empty(), seq![r1]);
    assert(Seq::<RequestView>::empty().push(r1) =~= seq![r1]);
    let r2 = crate::request::build_spec(lp2)->Ok_0;
    assert(seq![r1].push(r2) =~= seq![r1, r2]);
    assert(assemble(Seq::empty(), lp2, seq![r1]) == Ok::<Seq<RequestView>, ParseFailure>(
        seq![r1, r2],
    ));
}

/// Reading the name part of a header line over text without `:` or `{` adds that text
/// to the name.
proof fn lemma_scan_header_plain(
    s: Seq<char>,
    i: int,
    j: int,
    key: Seq<char>,
    value: Seq<char>,
    in_key: bool,
    vars: Map<Seq<char>, Seq<char>>,
)
    requires
        0 <= i <= j <= s.len(),
        forall|m: int| i <= m < j ==> s[m] != '{',
        in_key ==> forall|m: int| i <= m < j ==> s[m] != ':',
    ensures
        scan_header(s, i, key, value, in_key, vars) == (if in_key {
            scan_header(s, j, key + s.subrange(i, j), value, true, vars)
        } else {
            scan_header(s, j, key, value + s.subrange(i, j), false, vars)
        }),
    decreases j - i,
{
    if i < j {
        assert(reference_at(s, i) is None);
        lemma_scan_header_plain(s, i + 1, j, if in_key { key.push(s[i]) } else { key }, if in_key {
            value
        } else {
            value.push(s[i])
        }, in_key, vars);
        assert(key.push(s[i]) + s.subrange(i + 1, j) =~= key + s.subrange(i, j));
        assert(value.push(s[i]) + s.subrange(i + 1, j) =~= value + s.subrange(i, j));
    } else {
        assert(key + s.subrange(i, j) =~= key);
        assert(value + s.subrange(i, j) =~= value);
    }
}

/// Substitution in the value of a header line: a reference to a set variable gives
/// the text before it, the value and the text after it, trimmed as a whole.
pub proof fn lemma_header_substitution(
    key: Seq<char>,
    pre: Seq<char>,
    before: Seq<char>,
    name: Seq<char>,
    after: Seq<char>,
    post: Seq<char>,
    vars: Map<Seq<char>, Seq<char>>,
)
    requires
        forall|i: int| 0 <= i < key.len() ==> key[i] != ':' && key[i] != '{',
        forall|i: int| 0 <= i < pre.len() ==> pre[i] != '{',
        forall|i: int| 0 <= i < post.len() ==> post[i] != '{',
        all_ws(before),
        all_ws(after),
        is_identifier(name),
        forall|i: int| 0 <= i < name.len() ==> !is_brace(#[trigger] name[i]),
        vars.contains_key(name),
        is_header_name(trim(key)),
        is_header_value(trim(pre + vars[name] + post)),
    ensures
        header_field(key.push(':') + pre + reference_text(before, name, after) + post, vars)
            == Ok::<Option<(Seq<char>, Seq<char>)>, ParseFailure>(
            Some((ascii_lower(trim(key)), trim(pre + vars[name] + post))),
        ),
{
    let x = reference_text(before, name, after);
    let head = key.push(':') + pre;
    let s = head + x + post;
    assert(s =~= key.push(':') + pre + x + post);
    let kl = key.len() as int;
    let p0 = kl + 1 + pre.len();
    let p1 = p0 + x.len();
    let e = Seq::<char>::empty();
    assert forall|m: int| 0 <= m < kl implies s[m] != '{' && s[m] != ':' by {
        assert(s[m] == key[m]);
    }
    lemma_scan_header_plain(s, 0, kl, e, e, true, vars);
    assert(e + s.subrange(0, kl) =~= key);
    assert(s[kl] == ':');
    assert(scan_header(s, kl, key, e, true, vars) == scan_header(s, kl + 1, key, e, false, vars));
    assert forall|m: int| kl + 1 <= m < p0 implies s[m] != '{' by {
        assert(s[m] == pre[m - kl - 1]);
    }
    lemma_scan_header_plain(s, kl + 1, p0, key, e, false, vars);
    assert(e + s.subrange(kl + 1, p0) =~= pre);
    lemma_reference_text_at(head, before, name, after, post);
    assert(head.len() == p0);
    assert(scan_header(s, p0, key, pre, false, vars) == scan_header(
        s,
        p1,
        key,
        pre + vars[name],
        false,
        vars,
    ));
    assert forall|m: int| p1 <= m < s.len() implies s[m] != '{' by {
        assert(s[m] == post[m - p1]);
    }
    lemma_scan_header_plain(s, p1, s.len() as int, key, pre + vars[name], false, vars);
    assert(pre + vars[name] + s.subrange(p1, s.len() as int) =~= pre + vars[name] + post);
    assert(trim(key).len() > 0);
}

/// Reading a field over text without whitespace or `{` adds that text to the field.
proof fn lemma_scan_word_plain(
    s: Seq<char>,
    i: int,
    j: int,
    acc: Seq<char>,
    vars: Map<Seq<char>, Seq<char>>,
    lenient: bool,
)
    requires
        0 <= i <= j <= s.len(),
        forall|m: int| i <= m < j ==> s[m] != '{' && !is_ws(s[m]),
    ensures
        scan_word(s, i, acc, vars, lenient) == scan_word(s, j, acc + s.subrange(i, j), vars, lenient),
    decreases j - i,
{
    if i < j {
        assert(reference_at(s, i) is None);
        lemma_scan_word_plain(s, i + 1, j, acc.push(s[i]), vars, lenient);
        assert(acc.push(s[i]) + s.subrange(i + 1, j) =~= acc + s.subrange(i, j));
    } else {
        assert(acc + s.subrange(i, j) =~= acc);
    }
}

/// Substitution in the URI of a request line: a reference to a set variable gives the
/// text before it, the value and the text after it, and the URI is that text when
/// `http::Uri` accepts it.
pub proof fn lemma_uri_substitution(
    pre: Seq<char>,
    before: Seq<char>,
    name: Seq<char>,
    after: Seq<char>,
    post: Seq<char>,
    vars: Map<Seq<char>, Seq<char>>,
)
    requires
        forall|i: int| 0 <= i < pre.len() ==> pre[i] != '{' && !is_ws(pre[i]),
        forall|i: int| 0 <= i < post.len() ==> post[i] != '{' && !is_ws(post[i]),
        all_ws(before),
        all_ws(after),
        is_identifier(name),
        forall|i: int| 0 <= i < name.len() ==> !is_brace(#[trigger] name[i]),
        vars.contains_key(name),
    ensures
        ({
            let s = pre + reference_text(before, name, after) + post;
            let w = pre + vars[name] + post;
            &&& scan_word(s, 0, Seq::empty(), vars, false) == Ok::<(Seq<char>, int), Seq<char>>(
                (w, s.len() as int),
            )
            &&& uri_field(s, 0, vars) == if uri_accepts(w) {
                Ok::<(Seq<char>, int), ParseFailure>((w, s.len() as int))
            } else {
                Err(ParseFailure::InvalidUri(w))
            }
        }),
{
    let x = reference_text(before, name, after);
    let s = pre + x + post;
    let p0 = pre.len() as int;
    let p1 = p0 + x.len();
    let e = Seq::<char>::empty();
    assert forall|m: int| 0 <= m < p0 implies s[m] != '{' && !is_ws(s[m]) by {
        assert(s[m] == pre[m]);
    }
    lemma_scan_word_plain(s, 0, p0, e, vars, false);
    assert(e + s.subrange(0, p0) =~= pre);
    lemma_reference_text_at(pre, before, name, after, post);
    assert(s[p0] == '{');
    assert(scan_word(s, p0, pre, vars, false) == scan_word(s, p1, pre + vars[name], vars, false));
    assert forall|m: int| p1 <= m < s.len() implies s[m] != '{' && !is_ws(s[m]) by {
        assert(s[m] == post[m - p1]);
    }
    lemma_scan_word_plain(s, p1, s.len() as int, pre + vars[name], vars, false);
    assert(pre + vars[name] + s.subrange(p1, s.len() as int) =~= pre + vars[name] + post);
}

/// In a body, lines that are no separator and hold no reference join the body as
/// they stand.
proof fn lemma_plain_body_lines(st: Scan, body: Seq<Seq<char>>)
    requires
        st.mode == ParserMode::Body,
        forall|i: int, j: int| 0 <= i < body.len() && 0 <= j < body[i].len() ==> body[i][j] != '{',
        forall|i: int| 0 <= i < body.len() ==> !starts_with(trim(#[trigger] body[i]), "###"@),
    ensures
        scan_lines(st, body) == Ok::<Scan, ParseFailure>(Scan { body: st.body + body, ..st }),
    decreases body.len(),
{
    if body.len() == 0 {
        assert(st.body + body =~= st.body);
    } else {
        let l = body[0];
        lemma_resolve_plain(l, 0, Seq::empty(), st.vars);
        assert(Seq::<char>::empty() + l.skip(0) =~= l);
        let next = Scan { body: st.body.push(l), ..st };
        assert(scan_line(st, l) == Ok::<Scan, ParseFailure>(next));
        let rest = body.drop_first();
        assert forall|i: int, j: int| 0 <= i < rest.len() && 0 <= j < rest[i].len() implies rest[i][j]
            != '{' by {
            assert(rest[i] == body[i + 1]);
        }
        assert forall|i: int| 0 <= i < rest.len() implies !starts_with(trim(#[trigger] rest[i]), "###"@) by {
            assert(rest[i] == body[i + 1]);
        }
        lemma_plain_body_lines(next, rest);
        assert(st.body.push(l) + rest =~= st.body + body);
    }
}

/// Under a request line and a blank line, a body of lines that are no separator and
/// hold no reference (comment-like lines among them) is kept whole: the request's
/// body is those lines joined by line breaks.
pub proof fn lemma_plain_body_is_kept(
    request: Seq<char>,
    body: Seq<Seq<char>>,
    vars: Map<Seq<char>, Seq<char>>,
)
    requires
        one_line(request),
        strip_cr(request) == request,
        is_request_line(request, vars),
        body.len() > 0,
        body.last().len() > 0,
        forall|i: int| 0 <= i < body.len() ==> one_line(#[trigger] body[i]),
        forall|i: int| 0 <= i < body.len() - 1 ==> strip_cr(#[trigger] body[i]) == body[i],
        forall|i: int, j: int| 0 <= i < body.len() && 0 <= j < body[i].len() ==> body[i][j] != '{',
        forall|i: int| 0 <= i < body.len() ==> !starts_with(trim(#[trigger] body[i]), "###"@),
    ensures
        requests_of(join_lines(seq![request, Seq::empty()] + body), vars) matches Ok(rs)
            && rs.len() == 1 && rs[0].body == Some(join_lines(body)),
{
    let blank = Seq::<char>::empty();
    let lines = seq![request, blank] + body;
    assert(strip_cr(blank) == blank);
    assert forall|i: int| 0 <= i < lines.len() implies one_line(#[trigger] lines[i]) by {
        if i >= 2 {
            assert(lines[i] == body[i - 2]);
        }
    }
    assert forall|i: int| 0 <= i < lines.len() - 1 implies strip_cr(#[trigger] lines[i])
        == lines[i] by {
        if i >= 2 {
            assert(lines[i] == body[i - 2]);
        }
    }
    assert(lines.last() == body.last());
    lemma_lines_of_joined(lines);
    reveal_strlit("###");
    let start = Scan {
        mode: ParserMode::Request,
        vars,
        body: Seq::empty(),
        tokens: Seq::empty(),
    };
    let ts = request_line(trim(request), vars)->Ok_0;
    let s1 = Scan { mode: ParserMode::Headers, tokens: ts, ..start };
    assert(scan_line(start, request) == Ok::<Scan, ParseFailure>(s1)) by {
        assert(Seq::<TokenView>::empty() + ts =~= ts);
    }
    let s2 = Scan { mode: ParserMode::Body, ..s1 };
    assert(trim(blank) =~= blank);
    assert(!starts_with(trim(blank), "###"@));
    assert(scan_line(s1, blank) == Ok::<Scan, ParseFailure>(s2));
    lemma_plain_body_lines(s2, body);
    let s3 = Scan { body: Seq::<Seq<char>>::empty() + body, ..s2 };
    assert(Seq::<Seq<char>>::empty() + body =~= body);
    assert(lines.drop_first() =~= seq![blank] + body);
    assert((seq![blank] + body).drop_first() =~= body);
    assert(scan_lines(s1, seq![blank] + body) == Ok::<Scan, ParseFailure>(s3));
    assert(scan_lines(start, lines) == Ok::<Scan, ParseFailure>(s3));
    let b = TokenView::Body(Some(join_lines(body)));
    let toks = ts.push(b);
    assert(tokens_of(join_lines(lines), vars) == Ok::<Seq<TokenView>, ParseFailure>(toks));
    assert(toks =~= ts + seq![b]);
    lemma_assemble_line(trim(request), vars, seq![b], Seq::empty());
    let lp = line_partial(trim(request), vars);
    let req = crate::request::build_spec(PartialView { body: Some(join_lines(body)), ..lp })->Ok_0;
    assert(seq![b].drop_first() =~= Seq::<TokenView>::empty());
    assert(Seq::<RequestView>::empty().push(req) =~= seq![req]);
    assert(assemble(Seq::empty(), empty_partial(), seq![req]) == Ok::<
        Seq<RequestView>,
        ParseFailure,
    >(seq![req]));
}

/// A header line `name:value` without references declares the trimmed name in lower
/// case with the trimmed value.
pub proof fn lemma_plain_header_line(
    name: Seq<char>,
    value: Seq<char>,
    vars: Map<Seq<char>, Seq<char>>,
)
    requires
        forall|i: int| 0 <= i < name.len() ==> name[i] != ':' && name[i] != '{',
        forall|i: int| 0 <= i < value.len() ==> value[i] != '{',
        is_header_name(trim(name)),
        is_header_value(trim(value)),
    ensures
        header_field(name.push(':') + value, vars) == Ok::<
            Option<(Seq<char>, Seq<char>)>,
            ParseFailure,
        >(Some((ascii_lower(trim(name)), trim(value)))),
{
    let s = name.push(':') + value;
    let kl = name.len() as int;
    let e = Seq::<char>::empty();
    assert forall|m: int| 0 <= m < kl implies s[m] != '{' && s[m] != ':' by {
        assert(s[m] == name[m]);
    }
    lemma_scan_header_plain(s, 0, kl, e, e, true, vars);
    assert(e + s.subrange(0, kl) =~= name);
    assert(s[kl] == ':');
    assert forall|m: int| kl + 1 <= m < s.len() implies s[m] != '{' by {
        assert(s[m] == value[m - kl - 1]);
    }
    lemma_scan_header_plain(s, kl + 1, s.len() as int, name, e, false, vars);
    assert(e + s.subrange(kl + 1, s.len() as int) =~= value);
    assert(trim(name).len() > 0);
}

/// Two trimmed header lines whose names differ at most in ASCII case name one header,
/// and the later value is the one the request keeps.
pub proof fn lemma_last_header_wins_any_case(
    request: Seq<char>,
    name1: Seq<char>,
    value1: Seq<char>,
    name2: Seq<char>,
    value2: Seq<char>,
    vars: Map<Seq<char>, Seq<char>>,
)
    requires
        one_line(request),
        strip_cr(request) == request,
        is_request_line(request, vars),
        forall|i: int| 0 <= i < name1.len() ==> name1[i] != ':' && name1[i] != '{' && name1[i] != '\n',
        forall|i: int| 0 <= i < name2.len() ==> name2[i] != ':' && name2[i] != '{' && name2[i] != '\n',
        forall|i: int| 0 <= i < value1.len() ==> value1[i] != '{' && value1[i] != '\n',
        forall|i: int| 0 <= i < value2.len() ==> value2[i] != '{' && value2[i] != '\n',
        strip_cr(value1) == value1,
        is_header_name(trim(name1)),
        is_header_name(trim(name2)),
        ascii_lower(trim(name1)) == ascii_lower(trim(name2)),
        is_header_value(trim(value1)),
        is_header_value(trim(value2)),
        trim(name1.push(':') + value1) == name1.push(':') + value1,
        trim(name2.push(':') + value2) == name2.push(':') + value2,
        !starts_with(name1.push(':') + value1, "###"@),
        !starts_with(name2.push(':') + value2, "###"@),
    ensures
        requests_of(
            join_lines(seq![request, name1.push(':') + value1, name2.push(':') + value2]),
            vars,
        ) matches Ok(rs) && rs.len() == 1 && rs[0].headers == map![
            ascii_lower(trim(name1)) => trim(value2),
        ],
{
    let first = name1.push(':') + value1;
    let second = name2.push(':') + value2;
    assert forall|i: int| 0 <= i < first.len() implies first[i] != '\n' by {
        if i < name1.len() {
            assert(first[i] == name1[i]);
        } else if i > name1.len() {
            assert(first[i] == value1[i - name1.len() - 1]);
        }
    }
    assert forall|i: int| 0 <= i < second.len() implies second[i] != '\n' by {
        if i < name2.len() {
            assert(second[i] == name2[i]);
        } else if i > name2.len() {
            assert(second[i] == value2[i - name2.len() - 1]);
        }
    }
    assert(strip_cr(first) == first) by {
        if value1.len() > 0 {
            assert(first.last() == value1.last());
        } else {
            assert(first.last() == ':');
        }
    }
    lemma_plain_header_line(name1, value1, vars);
    lemma_plain_header_line(name2, value2, vars);
    lemma_last_header_wins(
        request,
        first,
        second,
        vars,
        ascii_lower(trim(name1)),
        trim(value1),
        trim(value2),
    );
}

} // verus!

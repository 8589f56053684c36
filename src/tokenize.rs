//! The line-by-line scan of a request file into tokens.

use crate::error::{ParseFailure, RequestParseError};
use crate::header::{
    ascii_lower, header_field, is_header_name, is_header_value, lemma_ascii_lower_header_name,
    parse_header, HeaderToken,
};
use crate::method::{method_field, parse_method_input, HttpMethod};
use crate::table::StringMap;
use crate::text::{
    chars_of, has_prefix, join_lines, join_with_newlines, lines_of, split_lines, starts_with,
    sub_vec, trim, trim_bounds,
};
use crate::uri::{parse_uri_input, uri_field};
use crate::variables::{declaration, parse_variable_declaration, resolve, resolve_text};
use crate::version::{parse_http_version, version_field, HttpVersion};
use vstd::prelude::*;

verus! {

/// Where the scan stands: before a request line, among the headers, or in the body.
#[derive(Debug, Clone, Copy, PartialEq, Eq, Structural)]
pub enum ParserMode {
    Request,
    Headers,
    Body,
}

/// A token with its texts as character sequences.
pub enum TokenView {
    Method(HttpMethod),
    Uri(Seq<char>),
    HttpVersion(HttpVersion),
    Header(Seq<char>, Seq<char>),
    Body(Option<Seq<char>>),
}

/// A piece of a request, in the order the file gives them; a body ends a request.
#[derive(Debug)]
pub enum RequestToken {
    Method(HttpMethod),
    Uri(String),
    HttpVersion(HttpVersion),
    Header(HeaderToken),
    Body(Option<String>),
}

impl View for RequestToken {
    type V = TokenView;

    open spec fn view(&self) -> TokenView {
        match self {
            RequestToken::Method(m) => TokenView::Method(*m),
            RequestToken::Uri(u) => TokenView::Uri(u@),
            RequestToken::HttpVersion(v) => TokenView::HttpVersion(*v),
            RequestToken::Header(h) => TokenView::Header(h.key@, h.value@),
            RequestToken::Body(b) => TokenView::Body(
                match b {
                    Some(t) => Some(t@),
                    None => None,
                },
            ),
        }
    }
}

/// The state of the scan between two lines.
pub struct Scan {
    pub mode: ParserMode,
    pub vars: Map<Seq<char>, Seq<char>>,
    pub body: Seq<Seq<char>>,
    pub tokens: Seq<TokenView>,
}

pub open spec fn token_views(v: Seq<RequestToken>) -> Seq<TokenView> {
    v.map_values(|t: RequestToken| t@)
}

pub open spec fn string_views(v: Seq<String>) -> Seq<Seq<char>> {
    v.map_values(|t: String| t@)
}

/// The tokens of a request line: its method, its URI, and its version if it names one.
pub open spec fn request_line(t: Seq<char>, vars: Map<Seq<char>, Seq<char>>) -> Result<
    Seq<TokenView>,
    ParseFailure,
> {
    match method_field(t, 0, vars) {
        Err(e) => Err(e),
        Ok((m, p)) => match uri_field(t, p, vars) {
            Err(e) => Err(e),
            Ok((u, q)) => Ok(
                seq![TokenView::Method(m), TokenView::Uri(u)] + match version_field(t, q, vars) {
                    Some(v) => seq![TokenView::HttpVersion(v)],
                    None => Seq::empty(),
                },
            ),
        },
    }
}

/// The body token that the gathered body lines make: none when there are none.
pub open spec fn body_token(body: Seq<Seq<char>>) -> TokenView {
    if body.len() == 0 {
        TokenView::Body(None)
    } else {
        TokenView::Body(Some(join_lines(body)))
    }
}

/// The scan after a separator ends the current request.
pub open spec fn flush(st: Scan) -> Scan {
    Scan {
        mode: ParserMode::Request,
        vars: st.vars,
        body: Seq::empty(),
        tokens: st.tokens.push(body_token(st.body)),
    }
}

/// The scan after one more line. Comments (`#`, `//`) count only before a request
/// line; a `###` separator counts only after one.
pub open spec fn scan_line(st: Scan, line: Seq<char>) -> Result<Scan, ParseFailure> {
    let t = trim(line);
    if starts_with(t, "###"@) && st.mode != ParserMode::Request {
        Ok(flush(st))
    } else if st.mode == ParserMode::Request && (starts_with(t, "#"@) || starts_with(t, "//"@)) {
        Ok(st)
    } else {
        match st.mode {
            ParserMode::Request => {
                let decl = if starts_with(t, "@"@) {
                    declaration(t.drop_first(), st.vars)
                } else {
                    Ok(None)
                };
                match decl {
                    Err(e) => Err(e),
                    Ok(Some((n, v))) => Ok(Scan { vars: st.vars.insert(n, v), ..st }),
                    Ok(None) => if t.len() == 0 {
                        Ok(st)
                    } else {
                        match request_line(t, st.vars) {
                            Err(e) => Err(e),
                            Ok(ts) => Ok(
                                Scan { mode: ParserMode::Headers, tokens: st.tokens + ts, ..st },
                            ),
                        }
                    },
                }
            },
            ParserMode::Headers => if t.len() == 0 {
                Ok(Scan { mode: ParserMode::Body, ..st })
            } else {
                match header_field(t, st.vars) {
                    Err(e) => Err(e),
                    Ok(None) => Ok(st),
                    Ok(Some((k, v))) => Ok(
                        Scan { tokens: st.tokens.push(TokenView::Header(k, v)), ..st },
                    ),
                }
            },
            ParserMode::Body => match resolve(line, 0, Seq::empty(), st.vars) {
                Err(n) => Err(ParseFailure::VariableNotFound(n)),
                Ok(l) => Ok(Scan { body: st.body.push(l), ..st }),
            },
        }
    }
}

/// The scan after the given lines, or the first error.
pub open spec fn scan_lines(st: Scan, lines: Seq<Seq<char>>) -> Result<Scan, ParseFailure>
    decreases lines.len(),
{
    if lines.len() == 0 {
        Ok(st)
    } else {
        match scan_line(st, lines[0]) {
            Err(e) => Err(e),
            Ok(next) => scan_lines(next, lines.drop_first()),
        }
    }
}

/// The tokens of a buffer scanned with the given variables; a body still gathered at
/// the end makes a last body token.
pub open spec fn tokens_of(buffer: Seq<char>, vars: Map<Seq<char>, Seq<char>>) -> Result<
    Seq<TokenView>,
    ParseFailure,
> {
    let start = Scan {
        mode: ParserMode::Request,
        vars,
        body: Seq::empty(),
        tokens: Seq::empty(),
    };
    match scan_lines(start, lines_of(buffer)) {
        Err(e) => Err(e),
        Ok(st) => Ok(
            if st.body.len() > 0 {
                st.tokens.push(body_token(st.body))
            } else {
                st.tokens
            },
        ),
    }
}

/// A header token holds a lower-case header name and a header value.
pub open spec fn token_ok(t: TokenView) -> bool {
    match t {
        TokenView::Header(k, v) => is_header_name(k) && ascii_lower(k) == k && is_header_value(v),
        _ => true,
    }
}

pub open spec fn tokens_ok(ts: Seq<TokenView>) -> bool {
    forall|i: int| 0 <= i < ts.len() ==> token_ok(#[trigger] ts[i])
}

/// The number of header tokens.
pub open spec fn header_tokens(ts: Seq<TokenView>) -> nat
    decreases ts.len(),
{
    if ts.len() == 0 {
        0
    } else {
        header_tokens(ts.drop_last()) + if ts.last() is Header {
            1nat
        } else {
            0nat
        }
    }
}

/// The number of header lines that a buffer read with the given variables holds.
pub open spec fn header_count(buffer: Seq<char>, vars: Map<Seq<char>, Seq<char>>) -> nat {
    match tokens_of(buffer, vars) {
        Ok(ts) => header_tokens(ts),
        Err(_) => 0,
    }
}

/// A prefix holds no more header tokens than the whole.
pub proof fn lemma_header_tokens_prefix(ts: Seq<TokenView>, i: int)
    requires
        0 <= i <= ts.len(),
    ensures
        header_tokens(ts.take(i)) <= header_tokens(ts),
    decreases ts.len(),
{
    if i == ts.len() {
        assert(ts.take(i) =~= ts);
    } else {
        assert(ts.drop_last().take(i) =~= ts.take(i));
        lemma_header_tokens_prefix(ts.drop_last(), i);
    }
}

/// Whether the header lines of a buffer are few enough for `parse_requests`: fewer
/// than 6553.
pub fn header_lines_fit(buffer: &str, input_variables: &StringMap) -> (r: bool)
    requires
        input_variables.wf(),
    ensures
        r == (header_count(buffer@, input_variables@) < 6553),
{
    let tokens = match tokenize(buffer, input_variables) {
        Ok(t) => t,
        Err(_) => {
            return true;
        },
    };
    let ghost all = token_views(tokens@);
    let mut count: usize = 0;
    let mut i: usize = 0;
    while i < tokens.len()
        invariant
            i <= tokens@.len(),
            all == token_views(tokens@),
            count == header_tokens(all.take(i as int)),
            count <= i,
        decreases tokens@.len() - i,
    {
        assert(all.take(i + 1).drop_last() =~= all.take(i as int));
        if let RequestToken::Header(_) = &tokens[i] {
            count = count + 1;
        }
        i = i + 1;
    }
    assert(all.take(i as int) =~= all);
    count < 6553
}

proof fn lemma_scan_line_ok(st: Scan, line: Seq<char>)
    requires
        tokens_ok(st.tokens),
        scan_line(st, line) is Ok,
    ensures
        tokens_ok(scan_line(st, line)->Ok_0.tokens),
{
    let t = trim(line);
    let next = scan_line(st, line)->Ok_0;
    if st.mode == ParserMode::Request && !starts_with(t, "#"@) && !starts_with(t, "//"@) {
        if request_line(t, st.vars) is Ok {
            let ts = request_line(t, st.vars)->Ok_0;
            assert forall|i: int| 0 <= i < ts.len() implies token_ok(#[trigger] ts[i]) by {}
            assert forall|i: int| 0 <= i < (st.tokens + ts).len() implies token_ok(
                #[trigger] (st.tokens + ts)[i],
            ) by {
                if i >= st.tokens.len() {
                    assert((st.tokens + ts)[i] == ts[i - st.tokens.len()]);
                }
            }
        }
    }
    if st.mode == ParserMode::Headers && t.len() > 0 {
        if let Ok(Some((k, v))) = header_field(t, st.vars) {
            let (kk, vv) = crate::header::scan_header(
                t,
                0,
                Seq::empty(),
                Seq::empty(),
                true,
                st.vars,
            )->Ok_0;
            lemma_ascii_lower_header_name(trim(kk));
        }
    }
    assert forall|i: int| 0 <= i < next.tokens.len() implies token_ok(#[trigger] next.tokens[i]) by {
        if i < st.tokens.len() {
            assert(next.tokens[i] == st.tokens[i]);
        }
    }
}

proof fn lemma_scan_lines_ok(st: Scan, lines: Seq<Seq<char>>)
    requires
        tokens_ok(st.tokens),
        scan_lines(st, lines) is Ok,
    ensures
        tokens_ok(scan_lines(st, lines)->Ok_0.tokens),
    decreases lines.len(),
{
    if lines.len() > 0 {
        lemma_scan_line_ok(st, lines[0]);
        lemma_scan_lines_ok(scan_line(st, lines[0])->Ok_0, lines.drop_first());
    }
}

/// Every header token of a buffer holds a lower-case header name and a header value.
pub proof fn lemma_tokens_ok(buffer: Seq<char>, vars: Map<Seq<char>, Seq<char>>)
    requires
        tokens_of(buffer, vars) is Ok,
    ensures
        tokens_ok(tokens_of(buffer, vars)->Ok_0),
{
    let start = Scan {
        mode: ParserMode::Request,
        vars,
        body: Seq::empty(),
        tokens: Seq::empty(),
    };
    lemma_scan_lines_ok(start, lines_of(buffer));
    let st = scan_lines(start, lines_of(buffer))->Ok_0;
    let ts = tokens_of(buffer, vars)->Ok_0;
    assert forall|i: int| 0 <= i < ts.len() implies token_ok(#[trigger] ts[i]) by {
        if i < st.tokens.len() {
            assert(ts[i] == st.tokens[i]);
        }
    }
}

struct Tokenizer {
    mode: ParserMode,
    vars: StringMap,
    body: Vec<String>,
    tokens: Vec<RequestToken>,
}

impl View for Tokenizer {
    type V = Scan;

    closed spec fn view(&self) -> Scan {
        Scan {
            mode: self.mode,
            vars: self.vars@,
            body: string_views(self.body@),
            tokens: token_views(self.tokens@),
        }
    }
}

impl Tokenizer {
    fn push_token(&mut self, t: RequestToken)
        ensures
            final(self)@ == (Scan { tokens: old(self)@.tokens.push(t@), ..old(self)@ }),
            final(self).vars == old(self).vars,
    {
        proof {
            assert(token_views(self.tokens@.push(t)) =~= token_views(self.tokens@).push(t@));
        }
        self.tokens.push(t);
    }

    fn flush(&mut self)
        ensures
            final(self)@ == flush(old(self)@),
            final(self).vars == old(self).vars,
    {
        let body = if self.body.len() == 0 {
            None
        } else {
            Some(join_with_newlines(&self.body))
        };
        self.push_token(RequestToken::Body(body));
        self.body = Vec::new();
        self.mode = ParserMode::Request;
        assert(string_views(self.body@) =~= Seq::<Seq<char>>::empty());
    }

    fn request_line(&mut self, t: &[char]) -> (r: Result<(), RequestParseError>)
        requires
            old(self).vars.wf(),
        ensures
            final(self).vars == old(self).vars,
            match request_line(t@, old(self)@.vars) {
                Ok(ts) => r is Ok && final(self)@ == (Scan {
                    tokens: old(self)@.tokens + ts,
                    ..old(self)@
                }),
                Err(f) => r matches Err(e) && e@ == f,
            },
    {
        let ghost start = self@;
        let (method, p) = parse_method_input(t, 0, &self.vars)?;
        let (uri, q) = parse_uri_input(t, p, &self.vars)?;
        let version = parse_http_version(t, q, &self.vars);
        self.push_token(RequestToken::Method(method));
        self.push_token(RequestToken::Uri(uri));
        match version {
            Some(v) => {
                self.push_token(RequestToken::HttpVersion(v));
            },
            None => {},
        }
        proof {
            let ts = request_line(t@, start.vars);
            assert(self@.tokens =~= start.tokens + ts->Ok_0);
        }
        Ok(())
    }

    fn line(&mut self, line: &[char]) -> (r: Result<(), RequestParseError>)
        requires
            old(self).vars.wf(),
        ensures
            final(self).vars.wf(),
            match scan_line(old(self)@, line@) {
                Ok(s) => r is Ok && final(self)@ == s,
                Err(f) => r matches Err(e) && e@ == f,
            },
    {
        let (lo, hi) = trim_bounds(line);
        let t = sub_vec(line, lo, hi);
        let separator = chars_of("###");
        let hash = chars_of("#");
        let slashes = chars_of("//");
        let at = chars_of("@");
        if has_prefix(t.as_slice(), separator.as_slice()) && self.mode != ParserMode::Request {
            self.flush();
            return Ok(());
        }
        if self.mode == ParserMode::Request && (has_prefix(t.as_slice(), hash.as_slice())
            || has_prefix(t.as_slice(), slashes.as_slice())) {
            return Ok(());
        }
        match self.mode {
            ParserMode::Request => {
                if has_prefix(t.as_slice(), at.as_slice()) {
                    proof {
                        reveal_strlit("@");
                    }
                    let rest = sub_vec(t.as_slice(), 1, t.len());
                    assert(rest@ =~= t@.drop_first());
                    match parse_variable_declaration(rest.as_slice(), &self.vars)? {
                        Some((name, value)) => {
                            self.vars.insert(name, value);
                            return Ok(());
                        },
                        None => {},
                    }
                }
                if t.len() == 0 {
                    return Ok(());
                }
                self.request_line(t.as_slice())?;
                self.mode = ParserMode::Headers;
                Ok(())
            },
            ParserMode::Headers => {
                if t.len() == 0 {
                    self.mode = ParserMode::Body;
                    return Ok(());
                }
                match parse_header(t.as_slice(), &self.vars)? {
                    Some(h) => {
                        self.push_token(RequestToken::Header(h));
                    },
                    None => {},
                }
                Ok(())
            },
            ParserMode::Body => {
                let text = resolve_text(line, 0, &self.vars)?;
                proof {
                    assert(string_views(self.body@.push(text)) =~= string_views(self.body@).push(
                        text@,
                    ));
                }
                self.body.push(text);
                Ok(())
            },
        }
    }
}

/// Scans `buffer` line by line into tokens, starting from the given variables.
pub fn tokenize(buffer: &str, input_variables: &StringMap) -> (r: Result<
    Vec<RequestToken>,
    RequestParseError,
>)
    requires
        input_variables.wf(),
    ensures
        match tokens_of(buffer@, input_variables@) {
            Ok(ts) => r matches Ok(v) && token_views(v@) == ts,
            Err(f) => r matches Err(e) && e@ == f,
        },
{
    let chars = chars_of(buffer);
    let lines = split_lines(chars.as_slice());
    let ghost all = lines_of(buffer@);
    let mut tk = Tokenizer {
        mode: ParserMode::Request,
        vars: input_variables.duplicate(),
        body: Vec::new(),
        tokens: Vec::new(),
    };
    proof {
        assert(string_views(tk.body@) =~= Seq::<Seq<char>>::empty());
        assert(token_views(tk.tokens@) =~= Seq::<TokenView>::empty());
        assert(all.skip(0) =~= all);
    }
    let ghost start = tk@;
    let mut i: usize = 0;
    while i < lines.len()
        invariant
            i <= lines@.len(),
            lines@.len() == all.len(),
            forall|j: int| 0 <= j < lines@.len() ==> (#[trigger] lines@[j])@ == all[j],
            tk.vars.wf(),
            all == lines_of(buffer@),
            start == (Scan {
                mode: ParserMode::Request,
                vars: input_variables@,
                body: Seq::empty(),
                tokens: Seq::empty(),
            }),
            scan_lines(start, all) == scan_lines(tk@, all.skip(i as int)),
        decreases lines@.len() - i,
    {
        let ghost before = tk@;
        proof {
            assert(lines@[i as int]@ == all[i as int]);
            assert(all.skip(i as int)[0] == all[i as int]);
            assert(all.skip(i as int).drop_first() =~= all.skip(i + 1));
        }
        match tk.line(lines[i].as_slice()) {
            Ok(()) => {},
            Err(e) => {
                proof {
                    assert(scan_lines(before, all.skip(i as int)) == scan_line(before, all[i as int]));
                }
                return Err(e);
            },
        }
        i = i + 1;
    }
    proof {
        assert(all.skip(i as int) =~= Seq::<Seq<char>>::empty());
    }
    if tk.body.len() > 0 {
        let text = join_with_newlines(&tk.body);
        tk.push_token(RequestToken::Body(Some(text)));
    }

    Ok(tk.tokens)
}

} // verus!

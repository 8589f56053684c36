//! Folding the tokens of a request file into requests.

use crate::error::{ParseFailure, RequestParseError};
use crate::method::HttpMethod;
use crate::header::{empty_headers, header_entries, insert_header};
use crate::table::StringMap;
use crate::tokenize::{
    header_count, header_tokens, lemma_header_tokens_prefix, lemma_tokens_ok, token_ok, token_views,
    tokenize, tokens_of, RequestToken, TokenView,
};
use crate::version::HttpVersion;
use vstd::prelude::*;

verus! {

/// A request read from a request file.
#[derive(Debug)]
pub struct HittRequest {
    pub method: HttpMethod,
    pub uri: String,
    pub headers: http::HeaderMap,
    pub body: Option<String>,
    pub http_version: Option<HttpVersion>,
}

/// A request with its texts as character sequences.
pub struct RequestView {
    pub method: HttpMethod,
    pub uri: Seq<char>,
    pub headers: Map<Seq<char>, Seq<char>>,
    pub body: Option<Seq<char>>,
    pub http_version: Option<HttpVersion>,
}

pub open spec fn opt_view(o: Option<String>) -> Option<Seq<char>> {
    match o {
        Some(s) => Some(s@),
        None => None,
    }
}

impl View for HittRequest {
    type V = RequestView;

    open spec fn view(&self) -> RequestView {
        RequestView {
            method: self.method,
            uri: self.uri@,
            headers: header_entries(self.headers),
            body: opt_view(self.body),
            http_version: self.http_version,
        }
    }
}

pub open spec fn request_views(v: Seq<HittRequest>) -> Seq<RequestView> {
    v.map_values(|r: HittRequest| r@)
}

/// A request whose method and URI may not be known yet.
pub struct PartialView {
    pub method: Option<HttpMethod>,
    pub uri: Option<Seq<char>>,
    pub headers: Map<Seq<char>, Seq<char>>,
    pub body: Option<Seq<char>>,
    pub http_version: Option<HttpVersion>,
}

pub open spec fn empty_partial() -> PartialView {
    PartialView {
        method: None,
        uri: None,
        headers: Map::empty(),
        body: None,
        http_version: None,
    }
}

/// The request that a partial one makes: it needs a method, then a URI.
pub open spec fn build_spec(p: PartialView) -> Result<RequestView, ParseFailure> {
    match p.method {
        None => Err(ParseFailure::MissingMethod),
        Some(m) => match p.uri {
            None => Err(ParseFailure::MissingUri),
            Some(u) => Ok(
                RequestView {
                    method: m,
                    uri: u,
                    headers: p.headers,
                    body: p.body,
                    http_version: p.http_version,
                },
            ),
        },
    }
}

/// The requests that the tokens make, after `done` and the partial request `p`. Each
/// token sets its part of the partial request (a header replaces one of the same
/// name); a body token ends the request. At the end a partial request with a method
/// is a last request.
pub open spec fn assemble(tokens: Seq<TokenView>, p: PartialView, done: Seq<RequestView>) -> Result<
    Seq<RequestView>,
    ParseFailure,
>
    decreases tokens.len(),
{
    if tokens.len() == 0 {
        if p.method is Some {
            match build_spec(p) {
                Ok(r) => Ok(done.push(r)),
                Err(e) => Err(e),
            }
        } else {
            Ok(done)
        }
    } else {
        let rest = tokens.drop_first();
        match tokens[0] {
            TokenView::Method(m) => assemble(rest, PartialView { method: Some(m), ..p }, done),
            TokenView::Uri(u) => assemble(rest, PartialView { uri: Some(u), ..p }, done),
            TokenView::HttpVersion(v) => assemble(
                rest,
                PartialView { http_version: Some(v), ..p },
                done,
            ),
            TokenView::Header(k, v) => assemble(
                rest,
                PartialView { headers: p.headers.insert(k, v), ..p },
                done,
            ),
            TokenView::Body(b) => match build_spec(PartialView { body: b, ..p }) {
                Ok(r) => assemble(rest, empty_partial(), done.push(r)),
                Err(e) => Err(e),
            },
        }
    }
}

/// The requests of a request file read with the given input variables.
pub open spec fn requests_of(buffer: Seq<char>, vars: Map<Seq<char>, Seq<char>>) -> Result<
    Seq<RequestView>,
    ParseFailure,
> {
    match tokens_of(buffer, vars) {
        Ok(ts) => assemble(ts, empty_partial(), Seq::empty()),
        Err(e) => Err(e),
    }
}

/// A request being gathered from tokens.
pub struct PartialHittRequest {
    pub method: Option<HttpMethod>,
    pub uri: Option<String>,
    pub headers: http::HeaderMap,
    pub body: Option<String>,
    pub http_version: Option<HttpVersion>,
}

impl View for PartialHittRequest {
    type V = PartialView;

    open spec fn view(&self) -> PartialView {
        PartialView {
            method: self.method,
            uri: opt_view(self.uri),
            headers: header_entries(self.headers),
            body: opt_view(self.body),
            http_version: self.http_version,
        }
    }
}

impl PartialHittRequest {
    /// A request with nothing set.
    pub fn new() -> (r: PartialHittRequest)
        ensures
            r@ == empty_partial(),
    {
        PartialHittRequest {
            method: None,
            uri: None,
            headers: empty_headers(),
            body: None,
            http_version: None,
        }
    }

    /// The request, once it has a method and a URI.
    pub fn build(self) -> (r: Result<HittRequest, RequestParseError>)
        ensures
            match build_spec(self@) {
                Ok(q) => r matches Ok(h) && h@ == q,
                Err(f) => r matches Err(e) && e@ == f,
            },
    {
        match self.method {
            Some(method) => match self.uri {
                Some(uri) => Ok(
                    HittRequest {
                        method,
                        uri,
                        headers: self.headers,
                        body: self.body,
                        http_version: self.http_version,
                    },
                ),
                None => Err(RequestParseError::MissingUri),
            },
            None => Err(RequestParseError::MissingMethod),
        }
    }
}

/// `r` is what parsing `buffer` with `vars` gives: the requests of the file, or its
/// first error.
pub open spec fn parse_outcome(
    buffer: Seq<char>,
    vars: Map<Seq<char>, Seq<char>>,
    r: Result<Vec<HittRequest>, RequestParseError>,
) -> bool {
    match requests_of(buffer, vars) {
        Ok(rs) => r matches Ok(v) && request_views(v@) == rs,
        Err(f) => r matches Err(e) && e@ == f,
    }
}

/// Parses a request file into its requests, in the order the file gives them, with
/// the given input variables; declarations in the file add to them or replace them.
/// The file holds fewer than 6553 header lines, which `http::HeaderMap` can always
/// take (`header_lines_fit` tells).
pub fn parse_requests(buffer: &str, input_variables: &StringMap) -> (r: Result<
    Vec<HittRequest>,
    RequestParseError,
>)
    requires
        input_variables.wf(),
        header_count(buffer@, input_variables@) < 6553,
    ensures
        parse_outcome(buffer@, input_variables@, r),
{
    let tokens = tokenize(buffer, input_variables)?;
    let ghost all = token_views(tokens@);
    proof {
        lemma_tokens_ok(buffer@, input_variables@);
    }
    let mut requests: Vec<HittRequest> = Vec::new();
    let mut partial = PartialHittRequest::new();
    let mut i: usize = 0;
    let n = tokens.len();
    let mut rest = tokens;
    proof {
        assert(all.skip(0) =~= all);
        assert(request_views(requests@) =~= Seq::<RequestView>::empty());
    }
    while i < n
        invariant
            i <= n,
            n == all.len(),
            tokens_of(buffer@, input_variables@) == Ok::<Seq<TokenView>, ParseFailure>(all),
            rest@.len() == n - i,
            forall|j: int| 0 <= j < n - i ==> (#[trigger] rest@[j])@ == all[i + j],
            forall|j: int| 0 <= j < all.len() ==> token_ok(#[trigger] all[j]),
            header_tokens(all) < 6553,
            header_entries(partial.headers).dom().finite(),
            header_entries(partial.headers).dom().len() <= header_tokens(all.take(i as int)),
            assemble(all, empty_partial(), Seq::empty()) == assemble(
                all.skip(i as int),
                partial@,
                request_views(requests@),
            ),
        decreases n - i,
    {
        let token = rest.remove(0);
        proof {
            assert(all.take(i + 1).drop_last() =~= all.take(i as int));
            assert(all.take(i + 1).last() == all[i as int]);
            lemma_header_tokens_prefix(all, i + 1);
            assert(token@ == all[i as int]);
            assert(all.skip(i as int)[0] == all[i as int]);
            assert(all.skip(i as int).drop_first() =~= all.skip(i + 1));
        }
        match token {
            RequestToken::Method(m) => {
                partial.method = Some(m);
            },
            RequestToken::Uri(u) => {
                partial.uri = Some(u);
            },
            RequestToken::HttpVersion(v) => {
                partial.http_version = Some(v);
            },
            RequestToken::Header(h) => {
                proof {
                    assert(token_ok(all[i as int]));
                }
                let inserted = insert_header(&mut partial.headers, h.key.as_str(), h.value.as_str());
                assert(inserted);
            },
            RequestToken::Body(b) => {
                partial.body = b;
                let done = partial;
                partial = PartialHittRequest::new();
                let req = done.build()?;
                proof {
                    assert(request_views(requests@.push(req)) =~= request_views(requests@).push(
                        req@,
                    ));
                }
                requests.push(req);
            },
        }
        i = i + 1;
    }
    proof {
        assert(all.skip(i as int) =~= Seq::<TokenView>::empty());
    }
    if partial.method.is_some() {
        let req = partial.build()?;
        proof {
            assert(request_views(requests@.push(req)) =~= request_views(requests@).push(req@));
        }
        requests.push(req);
    }
    Ok(requests)
}

} // verus!

use hitt::{parse_requests, HttpMethod, RequestParseError, StringMap};

#[test]
fn single_request_line_gives_one_request() {
    let requests = parse_requests("GET https://example.com/", &StringMap::new()).expect("valid");
    assert_eq!(1, requests.len());
    let request = &requests[0];
    assert_eq!(HttpMethod::Get, request.method);
    assert_eq!("https://example.com/", request.uri);
    assert!(request.headers.is_empty());
    assert_eq!(None, request.body);
    assert_eq!(None, request.http_version);
}

#[test]
fn separated_requests_keep_their_order() {
    let input = "GET https://example.com/a\n\n###\nPOST https://example.com/b";
    let requests = parse_requests(input, &StringMap::new()).expect("valid");
    assert_eq!(2, requests.len());
    assert_eq!(HttpMethod::Get, requests[0].method);
    assert_eq!("https://example.com/a", requests[0].uri);
    assert_eq!(None, requests[0].body);
    assert_eq!(HttpMethod::Post, requests[1].method);
    assert_eq!("https://example.com/b", requests[1].uri);
}

#[test]
fn declared_variable_is_substituted_in_uri() {
    let input = "@host = example.com\nGET https://{{host}}/";
    let requests = parse_requests(input, &StringMap::new()).expect("valid");
    assert_eq!(1, requests.len());
    assert_eq!("https://example.com/", requests[0].uri);
}

#[test]
fn unset_variable_in_body_is_an_error() {
    let input = "GET https://mhouge.dk/\n\n{{ body_input }}";
    let error = parse_requests(input, &StringMap::new()).expect_err("body_input is not set");
    assert!(matches!(error, RequestParseError::VariableNotFound(v) if v == "body_input"));
}

#[test]
fn later_header_replaces_earlier_one() {
    let input = "GET https://mhouge.dk/\na: 1\na: 2";
    let requests = parse_requests(input, &StringMap::new()).expect("valid");
    assert_eq!(1, requests.len());
    assert_eq!(1, requests[0].headers.len());
    assert_eq!("2", requests[0].headers.get("a").expect("a is set").to_str().expect("text"));

    let input = "GET https://mhouge.dk/\nX-Key: 1\nx-key: 2";
    let requests = parse_requests(input, &StringMap::new()).expect("valid");
    assert_eq!(1, requests[0].headers.len());
    assert_eq!("2", requests[0].headers.get("x-key").expect("x-key is set").to_str().expect("text"));
}

#[test]
fn comment_like_line_in_body_is_kept() {
    let input = "GET https://mhouge.dk/\na: 1\n\n# not a comment\n// nor this";
    let requests = parse_requests(input, &StringMap::new()).expect("valid");
    assert_eq!(Some("# not a comment\n// nor this".to_owned()), requests[0].body);
}

#[test]
fn comment_like_line_in_headers_is_a_header_line() {
    let input = "GET https://mhouge.dk/\n# x: 1";
    let error = parse_requests(input, &StringMap::new()).expect_err("'# x' is no header name");
    assert!(matches!(error, RequestParseError::InvalidHeaderName(n) if n == "# x"));
}

#[test]
fn parsing_twice_gives_the_same_requests() {
    let input = "@m = post\n{{m}} https://mhouge.dk/ HTTP/1.1\nk: v\n\nbody {{m}}\n###\nGET /x";
    let first = parse_requests(input, &StringMap::new()).expect("valid");
    let second = parse_requests(input, &StringMap::new()).expect("valid");
    assert_eq!(first.len(), second.len());
    for (a, b) in first.iter().zip(second.iter()) {
        assert_eq!(a.method, b.method);
        assert_eq!(a.uri, b.uri);
        assert_eq!(a.body, b.body);
        assert_eq!(a.http_version, b.http_version);
        assert_eq!(a.headers.get("k"), b.headers.get("k"));
    }
    assert_eq!(Some("body post".to_owned()), first[0].body);
}

#[test]
fn substitution_joins_surrounding_text_and_value() {
    let mut vars = StringMap::new();
    vars.insert("name".to_owned(), "value".to_owned());
    let input = "GET https://mhouge.dk/\n\nbefore{{  name }}after {x}";
    let requests = parse_requests(input, &vars).expect("valid");
    assert_eq!(Some("beforevalueafter {x}".to_owned()), requests[0].body);
}

#[test]
fn missing_method_and_uri_errors() {
    let error = parse_requests("GET", &StringMap::new()).expect_err("no uri");
    assert!(matches!(error, RequestParseError::InvalidUri(u) if u.is_empty()));
    let error = parse_requests("FETCH /x", &StringMap::new()).expect_err("no such method");
    assert!(matches!(error, RequestParseError::InvalidHttpMethod(m) if m == "FETCH"));
}

#[test]
fn error_messages() {
    assert_eq!(
        "invalid header value 'x'",
        RequestParseError::InvalidHeaderValue("x".to_owned()).message()
    );
    assert_eq!("missing uri", RequestParseError::MissingUri.message());
}

#[test]
fn empty_buffer_has_no_requests() {
    assert!(parse_requests("", &StringMap::new()).expect("valid").is_empty());
    assert!(parse_requests("\n###\n# c\n", &StringMap::new()).expect("valid").is_empty());
}

#[test]
fn crlf_line_endings_are_removed() {
    let input = "GET https://mhouge.dk/\r\nk: v\r\n\r\nline one\r\nline two";
    let requests = parse_requests(input, &StringMap::new()).expect("valid");
    assert_eq!("v", requests[0].headers.get("k").expect("k is set").to_str().expect("text"));
    assert_eq!(Some("line one\nline two".to_owned()), requests[0].body);
}

#[test]
fn unknown_version_is_dropped() {
    let requests =
        parse_requests("GET https://mhouge.dk/ HTTP/9", &StringMap::new()).expect("valid");
    assert_eq!(None, requests[0].http_version);
}

#[test]
fn header_lines_are_counted_against_the_limit() {
    assert!(hitt::header_lines_fit("GET https://mhouge.dk/\na: 1\nb: 2", &StringMap::new()));
    let mut many = String::from("GET https://mhouge.dk/\n");
    for i in 0..6553 {
        many.push_str(&format!("h{i}: v\n"));
    }
    assert!(!hitt::header_lines_fit(&many, &StringMap::new()));
    many.truncate(many.len() - "h6552: v\n".len());
    assert!(hitt::header_lines_fit(&many, &StringMap::new()));
    let requests = parse_requests(&many, &StringMap::new()).expect("valid");
    assert_eq!(6552, requests[0].headers.len());
}

use hitt::{
    chars_of, parse_header, parse_http_version, parse_method_input, parse_uri_input, HttpMethod,
    HttpVersion, RequestParseError, StringMap,
};

const HTTP_METHODS: [&str; 9] = [
    "GET", "POST", "PUT", "PATCH", "DELETE", "HEAD", "OPTIONS", "CONNECT", "TRACE",
];

fn method_of(name: &str) -> HttpMethod {
    match name {
        "GET" => HttpMethod::Get,
        "POST" => HttpMethod::Post,
        "PUT" => HttpMethod::Put,
        "PATCH" => HttpMethod::Patch,
        "DELETE" => HttpMethod::Delete,
        "HEAD" => HttpMethod::Head,
        "OPTIONS" => HttpMethod::Options,
        "CONNECT" => HttpMethod::Connect,
        _ => HttpMethod::Trace,
    }
}

fn method(input: &str, vars: &StringMap) -> Result<HttpMethod, RequestParseError> {
    parse_method_input(&chars_of(input), 0, vars).map(|(m, _)| m)
}

fn uri(input: &str, vars: &StringMap) -> Result<String, RequestParseError> {
    parse_uri_input(&chars_of(input), 0, vars).map(|(u, _)| u)
}

fn version(input: &str, vars: &StringMap) -> Option<HttpVersion> {
    parse_http_version(&chars_of(input), 0, vars)
}

#[test]
fn it_should_accept_valid_methods() {
    for method_input in HTTP_METHODS {
        let input = format!("{method_input} https://mhouge.dk HTTP/2");

        let parsed_method =
            method(&input, &StringMap::new()).expect("it should return a valid method");

        assert_eq!(method_input, parsed_method.as_str());
    }
}

#[test]
fn mod_it_should_ignore_case() {
    for method_input in HTTP_METHODS {
        let input = format!("{} https://mhouge.dk HTTP/2", method_input.to_lowercase());

        let parsed_method =
            method(&input, &StringMap::new()).expect("it should return a valid method");

        assert_eq!(method_input, parsed_method.as_str());
    }
}

#[test]
fn method_mod_it_should_support_variables() {
    let mut vars = StringMap::new();

    {
        let error = method("{method", &StringMap::new()).expect_err("invalid method");
        assert_eq!("invalid HTTP method '{METHOD'", error.message());
        assert!(matches!(error, RequestParseError::InvalidHttpMethod(m) if m == "{METHOD"));
    };

    {
        let error = method("{method}", &StringMap::new()).expect_err("invalid method");
        assert_eq!("invalid HTTP method '{METHOD}'", error.message());
        assert!(matches!(error, RequestParseError::InvalidHttpMethod(m) if m == "{METHOD}"));
    };

    for name in HTTP_METHODS {
        vars.insert("method".to_owned(), name.to_owned());

        let expected_method = method_of(name);

        assert_eq!(
            expected_method,
            method("{{method}}", &vars).expect("it should return a valid method")
        );

        assert_eq!(
            expected_method,
            method("{{  method  }}", &vars).expect("it should return a valid method")
        );
    }
}

#[test]
fn it_should_require_method() {
    let output = method("   ", &StringMap::new()).expect_err("it to return a RequestParseError");

    assert_eq!(output.message(), "invalid HTTP method ''");

    assert!(matches!(output, RequestParseError::InvalidHttpMethod(m) if m.is_empty()));
}

#[test]
fn it_should_raise_if_variable_not_found() {
    {
        let input = "{{}}";

        let output = method(input, &StringMap::new());

        assert!(matches!(output, Err(RequestParseError::InvalidHttpMethod(m)) if m == input));
    };

    {
        let input = "{{method}}";

        let output = method(input, &StringMap::new());

        assert!(matches!(output, Err(RequestParseError::VariableNotFound(var)) if var == "method"));
    }
}

#[test]
fn extension_methods_are_refused() {
    let output = method("purge https://mhouge.dk/", &StringMap::new());
    assert!(matches!(output, Err(RequestParseError::InvalidHttpMethod(m)) if m == "PURGE"));
}

#[test]
fn method_field_reports_where_it_ends() {
    let chars = chars_of("  get   https://mhouge.dk/");
    let (m, next) = parse_method_input(&chars, 0, &StringMap::new()).expect("a method");
    assert_eq!(HttpMethod::Get, m);
    assert_eq!(6, next);
}

#[test]
fn it_should_be_able_to_parse_uris() {
    let input_uris = [
        "https://mhouge.dk/",
        "https://goout.dk/",
        "https://mhouge.dk?key=value",
    ];

    for input_uri in input_uris {
        let input = format!("{input_uri} HTTP/2");

        let output_uri = uri(&input, &StringMap::new()).expect("it to parse uri correctly");

        assert_eq!(input_uri, output_uri);
    }
}

#[test]
fn it_should_ignore_leading_spaces() {
    let input_uri = "https://mhouge.dk/";

    let input = format!("         {input_uri} HTTP/2.0");

    let result = uri(&input, &StringMap::new()).expect("it should return a valid uri");

    assert_eq!(result, input_uri);
}

#[test]
fn it_should_reject_invalid_uris() {
    let invalid_uris = ["m:a:d:s"];

    for invalid_uri in invalid_uris {
        let input = format!("{invalid_uri} HTTP/2");

        let error = uri(&input, &StringMap::new()).expect_err("it should return an error");

        assert_eq!(format!("invalid uri '{invalid_uri}'"), error.message());
        assert!(matches!(error, RequestParseError::InvalidUri(u) if u == invalid_uri));
    }
}

#[test]
fn it_should_support_query_parameters() {
    let input_uri = "https://mhouge.dk/";

    for i in i8::MIN..i8::MAX {
        let input = format!("{input_uri}?key{i}=value{i}");

        let result = uri(&input, &StringMap::new()).expect("it should return a valid uri");

        assert_eq!(result, format!("{input_uri}?key{i}=value{i}"));
    }
}

#[test]
fn uri_mod_it_should_support_variables() {
    let mut vars = StringMap::new();

    let input_uri = "https://mhouge.dk/";

    let variable_open = "{{";
    let variable_close = "}}";

    for i in i8::MIN..i8::MAX {
        vars.insert(format!("i{i}"), i.to_string());

        let input = format!("{input_uri}?key={variable_open}i{i}{variable_close}");

        let result = uri(&input, &vars).expect("it should return a valid uri");

        assert_eq!(result, format!("{input_uri}?key={i}"));
    }

    let open_bracket = '{';
    let close_bracket = '}';

    let bad_variable_input = [
        format!("{open_bracket}val"),
        format!("{open_bracket}val{close_bracket}"),
        format!("{open_bracket}val{close_bracket}"),
        format!("{open_bracket}val{close_bracket}{open_bracket}"),
        format!("{open_bracket}val{close_bracket}{close_bracket}"),
    ];

    for input in bad_variable_input {
        let text = format!("https://mhouge.dk/?key={input}");

        let result = uri(&text, &StringMap::new()).expect("it to parse as a valid uri");

        assert_eq!(result, text);
    }
}

#[test]
fn it_should_raise_if_variable_isnt_found() {
    for input in ["{{host}}", "{{  host}}", "{{host  }}", "{{  host  }}"] {
        let output = uri(input, &StringMap::new()).expect_err("to to return a RequestParseError");

        assert_eq!("variable 'host' was used, but not set", output.message());

        assert!(matches!(output, RequestParseError::VariableNotFound(var) if var == "host"));
    }
}

#[test]
fn it_should_return_valid_headers() {
    for i in i8::MIN..i8::MAX {
        let line = format!("header{i}: value{i}");

        let result = parse_header(&chars_of(&line), &StringMap::new())
            .expect("It should be able to parse valid headers")
            .expect("headers to be defined");

        assert_eq!(result.key, format!("header{i}"));
        assert_eq!(result.value, format!("value{i}"));
    }

    {
        let input = "key===::value";

        let error = parse_header(&chars_of(input), &StringMap::new())
            .expect_err("it to fail to parse");

        assert_eq!(error.message(), "invalid header name 'key==='");

        assert!(matches!(error, RequestParseError::InvalidHeaderName(name) if name == "key==="));
    };

    {
        let input = "key::v!###  `al\nue";

        let error = parse_header(&chars_of(input), &StringMap::new())
            .expect_err("it to fail to parse");

        assert_eq!(error.message(), "invalid header value ':v!###  `al\nue'");

        assert!(
            matches!(error, RequestParseError::InvalidHeaderValue(val) if val == ":v!###  `al\nue")
        );
    };

    {
        let input = "key::value";

        let output = parse_header(&chars_of(input), &StringMap::new())
            .expect("it to parse")
            .expect("it to be some");

        assert_eq!(output.key, "key");
        assert_eq!(output.value, ":value");
    };
}

#[test]
fn it_should_ignore_empty_lines() {
    let result = parse_header(&chars_of(""), &StringMap::new()).expect("it to be parseable");

    assert!(result.is_none());
}

#[test]
fn header_mod_it_should_support_variables() {
    let mut vars = StringMap::new();

    let open = "{{";
    let close = "}}";
    let mut extra_spaces = String::new();

    for i in i8::MIN..i8::MAX {
        let key = format!("key{i}");
        let value = format!("value{i}");

        vars.insert(key.clone(), i.to_string());
        vars.insert(value.clone(), i.to_string());

        {
            let input =
                format!("{open}{extra_spaces}{key}{extra_spaces}{close}:{extra_spaces}static");

            let result = parse_header(&chars_of(&input), &vars)
                .expect("it to be parseable")
                .expect("it to return a header field");

            assert_eq!(result.key, i.to_string());
            assert_eq!(result.value, "static");
        };

        {
            let input =
                format!("static:{extra_spaces}{open}{extra_spaces}{value}{extra_spaces}{close}");

            let result = parse_header(&chars_of(&input), &vars)
                .expect("it to be parseable")
                .expect("it to return a header field");

            assert_eq!(result.key, "static");
            assert_eq!(result.value, i.to_string());
        };

        {
            let input = format!(
                "{open}{extra_spaces}{key}{extra_spaces}{close}:{extra_spaces}{open}{extra_spaces}{value}{extra_spaces}{close}"
            );

            let result = parse_header(&chars_of(&input), &vars)
                .expect("it to be parseable")
                .expect("it to return a header field");

            assert_eq!(result.key, i.to_string());
            assert_eq!(result.value, i.to_string());
        };

        extra_spaces.push(' ');
    }
}

#[test]
fn it_should_handle_bad_variables() {
    for (key, value) in [
        ("{key", "value"),
        ("{key }", "value"),
        ("{key", ":value }}"),
        ("key{", "value"),
        ("key{", "value}}"),
    ] {
        let input = format!("{key}:{value}");

        let error = parse_header(&chars_of(&input), &StringMap::new())
            .expect_err("it to return an invalid error");

        assert_eq!(format!("invalid header name '{key}'"), error.message());
        assert!(matches!(error, RequestParseError::InvalidHeaderName(name) if name == key));
    }

    {
        let input = "key:{value";

        let result = parse_header(&chars_of(input), &StringMap::new())
            .expect("it to be parseable")
            .expect("it to return a header field");

        assert_eq!(result.key, "key");
        assert_eq!(result.value, "{value");
    };
}

#[test]
fn it_should_allow_spaces_in_header() {
    let f = "mads-was-here";
    let input = format!("     {f}    :     {f}     ");
    let result = parse_header(&chars_of(&input), &StringMap::new())
        .expect("it to be parseable")
        .expect("it to exist");

    assert_eq!(f.trim(), result.key);

    assert_eq!(f.trim(), result.value);
}

#[test]
fn it_should_reject_if_variable_is_missing() {
    {
        let error = parse_header(&chars_of("{{key_var}}: value"), &StringMap::new())
            .expect_err("it to return missing variable 'key_var'");

        assert_eq!("variable 'key_var' was used, but not set", error.message());

        assert!(matches!(error, RequestParseError::VariableNotFound(var) if var == "key_var"));
    };

    {
        let error = parse_header(&chars_of("key: {{value_var}}"), &StringMap::new())
            .expect_err("it to return missing variable 'value_var'");

        assert_eq!("variable 'value_var' was used, but not set", error.message());
        assert!(matches!(error, RequestParseError::VariableNotFound(var) if var == "value_var"));
    }
}

#[test]
fn header_names_are_kept_in_lower_case() {
    let result = parse_header(&chars_of("Content-Type: application/json"), &StringMap::new())
        .expect("it to parse")
        .expect("a header");
    assert_eq!("content-type", result.key);
    assert_eq!("application/json", result.value);
}

const HTTP_0_9_INPUTS: [&str; 5] = [
    "http/0.9",
    "HTTP/0.9",
    "   HTTP/0.9",
    "HTTP/0.9   ",
    "   HTTP/0.9   ",
];

const HTTP_1_0_INPUTS: [&str; 10] = [
    "http/1",
    "http/1.0",
    "HTTP/1",
    "   HTTP/1",
    "HTTP/1   ",
    "   HTTP/1   ",
    "HTTP/1.0",
    "   HTTP/1.0",
    "HTTP/1.0   ",
    "   HTTP/1.0   ",
];

const HTTP_1_1_INPUTS: [&str; 5] = [
    "http/1.1",
    "HTTP/1.1",
    "   HTTP/1.1",
    "HTTP/1.1   ",
    "   HTTP/1.1   ",
];

const HTTP_2_0_INPUTS: [&str; 10] = [
    "http/2",
    "http/2.0",
    "HTTP/2",
    "   HTTP/2",
    "HTTP/2   ",
    "   HTTP/2   ",
    "HTTP/2.0",
    "   HTTP/2.0",
    "HTTP/2.0   ",
    "   HTTP/2.0   ",
];

const HTTP_3_0_INPUTS: [&str; 10] = [
    "http/3.0",
    "http/3",
    "HTTP/3",
    "   HTTP/3",
    "HTTP/3   ",
    "   HTTP/3   ",
    "HTTP/3.0",
    "   HTTP/3.0",
    "HTTP/3.0   ",
    "   HTTP/3.0   ",
];

fn check_versions(inputs: &[&str], expected: HttpVersion) {
    for input in inputs {
        assert_eq!(Some(expected), version(input, &StringMap::new()));
        assert_eq!(Some(expected), version(&input.to_lowercase(), &StringMap::new()));
    }
}

#[test]
fn it_should_parse_http_0_9() {
    check_versions(&HTTP_0_9_INPUTS, HttpVersion::Http09);
}

#[test]
fn it_should_parse_http_1_0() {
    check_versions(&HTTP_1_0_INPUTS, HttpVersion::Http10);
}

#[test]
fn it_should_parse_http_1_1() {
    check_versions(&HTTP_1_1_INPUTS, HttpVersion::Http11);
}

#[test]
fn it_should_parse_http_2_0() {
    check_versions(&HTTP_2_0_INPUTS, HttpVersion::Http2);
}

#[test]
fn it_should_parse_http_3_0() {
    check_versions(&HTTP_3_0_INPUTS, HttpVersion::Http3);
}

#[test]
fn version_mod_it_should_support_variables() {
    let mut vars = StringMap::new();

    for (inputs, expected) in [
        (&HTTP_0_9_INPUTS[..], HttpVersion::Http09),
        (&HTTP_1_0_INPUTS[..], HttpVersion::Http10),
        (&HTTP_1_1_INPUTS[..], HttpVersion::Http11),
        (&HTTP_2_0_INPUTS[..], HttpVersion::Http2),
        (&HTTP_3_0_INPUTS[..], HttpVersion::Http3),
    ] {
        for v in inputs {
            vars.insert("version".to_owned(), (*v).to_owned());

            assert_eq!(Some(expected), version("{{version}}", &vars));
            assert_eq!(Some(expected), version("{{  version  }}", &vars));
        }
    }
}

#[test]
fn it_should_ignore_unknown_http_versions() {
    let empty = StringMap::new();
    assert_eq!(None, version("unknown", &empty));
    assert_eq!(None, version("{unknown", &empty));
    assert_eq!(None, version("{{unknown", &empty));
    assert_eq!(None, version("{{unknown}", &empty));
    assert_eq!(None, version("{{unknown} }", &empty));
}

#[test]
fn it_should_return_none_if_var_isnt_found() {
    assert_eq!(None, version("{{unknown}}", &StringMap::new()));
}

#[test]
fn header_line_with_empty_trimmed_name_gives_no_header() {
    assert!(parse_header(&chars_of(" : v"), &StringMap::new()).expect("no error").is_none());
    assert!(parse_header(&chars_of(": v"), &StringMap::new()).expect("no error").is_none());

    let mut vars = StringMap::new();
    vars.insert("ws".to_owned(), " ".to_owned());
    assert!(parse_header(&chars_of("{{ws}}: v"), &vars).expect("no error").is_none());
}

#[test]
fn version_from_lower_case_text() {
    assert_eq!(Some(HttpVersion::Http2), HttpVersion::from_lower_text("  http/2.0 "));
    assert_eq!(Some(HttpVersion::Http10), HttpVersion::from_lower_text("http/1"));
    assert_eq!(None, HttpVersion::from_lower_text("HTTP/1"));
}

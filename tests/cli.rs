use hitt::cli::{
    command_from_words, is_error_status, should_fail_fast, valid_header_key, valid_header_value, valid_url,
};
use hitt::prompt::{confirm_answer, select_step, PromptKey};
use hitt::{
    build_editor_cmd, build_variable_map, content_type_to_ext, parse_variable_argument,
    request_file_text, try_find_content_type, ArgumentError, TerminalShell,
};

#[test]
fn it_should_return_none_if_not_exist() {
    let headers = vec![("a".to_owned(), "b".to_owned())];

    assert!(try_find_content_type(&headers).is_none());
}

#[test]
fn it_should_return_type_if_exists() {
    let content_type = "application/json";

    let headers = vec![("content-type".to_owned(), content_type.to_owned())];

    assert_eq!(Some(content_type), try_find_content_type(&headers));
}

#[test]
fn new_it_should_ignore_case() {
    {
        let content_type = "application/JSON";

        let headers = vec![("content-type".to_owned(), content_type.to_owned())];

        assert_eq!(Some(content_type), try_find_content_type(&headers));
    };

    {
        let content_type = "application/JSON".to_lowercase();

        let headers = vec![("content-type".to_owned(), content_type.clone())];

        assert_eq!(Some(content_type.as_str()), try_find_content_type(&headers));
    };

    {
        let content_type = "application/JSON".to_uppercase();

        let headers = vec![("content-type".to_owned(), content_type.clone())];

        assert_eq!(Some(content_type.as_str()), try_find_content_type(&headers));
    }
}

#[test]
fn content_type_header_name_is_matched_in_any_case() {
    let headers = vec![
        ("accept".to_owned(), "text/html".to_owned()),
        ("Content-Type".to_owned(), "text/css".to_owned()),
        ("content-type".to_owned(), "text/csv".to_owned()),
    ];

    assert_eq!(Some("text/css"), try_find_content_type(&headers));
}

#[test]
fn it_should_save_request_input() {
    let method = "GET";
    let url = "https://mhouge.dk/";
    let headers = vec![
        ("x-key1".to_owned(), "x-value1".to_owned()),
        ("x-key2".to_owned(), "x-value2".to_owned()),
    ];

    let body = "{
  \"key\": \"value\"
}";

    let expected_result = format!(
        "{method} {url}
x-key1: x-value1
x-key2: x-value2

{body}
"
    );

    let result = request_file_text(method, url, &headers, Some(body.to_owned()));

    assert_eq!(result, expected_result);
}

#[test]
fn request_file_without_headers_or_body() {
    assert_eq!("DELETE /x\n", request_file_text("DELETE", "/x", &[], None));
}

#[test]
fn run_it_should_parse_variables() {
    let input = vec![
        "name=hougesen".to_owned(),
        "host=https://mhouge.dk/?query=asd".to_owned(),
    ];

    let variables = build_variable_map(Some(&input)).expect("it to return a map");

    assert_eq!(variables.len(), 2);

    let host_var = variables.get("host").expect("it to be some");
    assert_eq!(host_var, "https://mhouge.dk/?query=asd");

    let name_var = variables.get("name").expect("it to be some");
    assert_eq!(name_var, "hougesen");
}

#[test]
fn variable_map_keeps_the_last_of_two_values() {
    let input = vec!["a=1".to_owned(), "a=2".to_owned()];
    let variables = build_variable_map(Some(&input)).expect("it to return a map");
    assert_eq!(1, variables.len());
    assert_eq!("2", variables.get("a").expect("a is set"));

    assert!(build_variable_map(None).expect("no arguments").is_empty());

    let bad = vec!["a=1".to_owned(), "oops".to_owned()];
    let error = build_variable_map(Some(&bad)).expect_err("oops is no variable");
    assert!(matches!(error, ArgumentError::InvalidVariableArgument(a) if a == "oops"));
}

#[test]
fn it_should_parse_valid_arguments() {
    for i in u8::MIN..u8::MAX {
        let key = format!("key{i}");
        let value = format!("value{i}");

        let input = format!("{key}={value}");

        let result = parse_variable_argument(&input).expect("it to return a variable");

        assert_eq!(result.0, key);
        assert_eq!(result.1, value);
    }
}

#[test]
fn it_should_reject_if_no_equal_sign() {
    for i in u8::MIN..u8::MAX {
        let key = format!("key{i}");
        let value = format!("value{i}");

        let input = format!("{key}{value}");

        let error = parse_variable_argument(&input).expect_err("it to return a variable");

        assert_eq!(
            format!(
                "'{input}' is not a valid variable argument - variable input should be '--var <KEY>=<VALUE>'"
            ),
            error.message()
        );

        assert!(
            matches!(&error, ArgumentError::InvalidVariableArgument(invalid_variable) if invalid_variable == &input)
        );
    }
}

#[test]
fn it_should_allow_equal_signs_as_value() {
    for i in u8::MIN..u8::MAX {
        let key = format!("key{i}");
        let value = format!("value={i}");

        let input = format!("{key}={value}");

        let result = parse_variable_argument(&input).expect("it to return a variable");

        assert_eq!(result.0, key);
        assert_eq!(result.1, value);
    }
}

#[test]
fn it_should_return_command() {
    {
        let cmd = "nvim";

        assert_eq!((cmd.to_owned(), Vec::new()), build_editor_cmd(cmd.to_owned()));
    };

    {
        let cmd = "nvim --mads --was --here";

        assert_eq!(
            (
                "nvim".to_owned(),
                vec!["--mads".to_owned(), "--was".to_owned(), "--here".to_owned()]
            ),
            build_editor_cmd(cmd.to_owned())
        );
    };
}

#[test]
fn editor_command_with_quotes_and_bad_quoting() {
    assert_eq!(
        ("my editor".to_owned(), vec!["-w".to_owned()]),
        build_editor_cmd("'my editor' -w".to_owned())
    );
    assert_eq!(("vim 'oops".to_owned(), Vec::<String>::new()), build_editor_cmd("vim 'oops".to_owned()));
    assert_eq!(("".to_owned(), Vec::<String>::new()), build_editor_cmd("".to_owned()));
}

#[test]
fn application_json() {
    assert_eq!(".json", content_type_to_ext(Some("application/json")));
}

#[test]
fn text_css() {
    assert_eq!(".css", content_type_to_ext(Some("text/css")));
}

#[test]
fn text_csv() {
    assert_eq!(".csv", content_type_to_ext(Some("text/csv")));
}

#[test]
fn text_html() {
    assert_eq!(".html", content_type_to_ext(Some("text/html")));
}

#[test]
fn text_javascript() {
    assert_eq!(".js", content_type_to_ext(Some("text/javascript")));
}

#[test]
fn application_ld_json() {
    assert_eq!(".jsonld", content_type_to_ext(Some("application/ld+json")));
}

#[test]
fn application_x_httpd_php() {
    assert_eq!(".php", content_type_to_ext(Some("application/x-httpd-php")));
}

#[test]
fn application_x_sh() {
    assert_eq!(".sh", content_type_to_ext(Some("application/x-sh")));
}

#[test]
fn image_svg_xml() {
    assert_eq!(".svg", content_type_to_ext(Some("image/svg+xml")));
}

#[test]
fn application_xml() {
    assert_eq!(".xml", content_type_to_ext(Some("application/xml")));
}

#[test]
fn text_xml() {
    assert_eq!(".xml", content_type_to_ext(Some("text/xml")));
}

#[test]
fn unknown_content_type() {
    for i in u8::MIN..u8::MAX {
        assert_eq!(".txt", content_type_to_ext(Some(&i.to_string())));
    }
    assert_eq!(".txt", content_type_to_ext(None));
}

#[test]
fn error_statuses_are_four_and_five_hundreds() {
    assert!(!is_error_status(399));
    assert!(is_error_status(400));
    assert!(is_error_status(599));
    assert!(!is_error_status(600));
    assert!(should_fail_fast(true, 500));
    assert!(!should_fail_fast(false, 500));
    assert!(!should_fail_fast(true, 200));
}

#[test]
fn prompt_inputs_are_validated() {
    assert!(valid_url("https://mhouge.dk/"));
    assert!(!valid_url(""));
    assert!(!valid_url("m:a:d:s"));
    assert!(valid_header_key("x-key"));
    assert!(!valid_header_key(""));
    assert!(!valid_header_key("bad key"));
    assert!(valid_header_value("value"));
    assert!(!valid_header_value(""));
    assert!(!valid_header_value("a\u{1}b"));
}

#[test]
fn selection_wraps_around() {
    assert_eq!((2, false), select_step(0, 3, PromptKey::ArrowUp));
    assert_eq!((0, false), select_step(1, 3, PromptKey::Char('k')));
    assert_eq!((0, false), select_step(2, 3, PromptKey::ArrowDown));
    assert_eq!((2, false), select_step(1, 3, PromptKey::Char('j')));
    assert_eq!((1, true), select_step(1, 3, PromptKey::Enter));
    assert_eq!((1, false), select_step(1, 3, PromptKey::Char('x')));
}

#[test]
fn confirmation_keys() {
    assert_eq!(Some(true), confirm_answer(PromptKey::Char('Y'), 'n'));
    assert_eq!(Some(false), confirm_answer(PromptKey::Char('n'), 'y'));
    assert_eq!(Some(true), confirm_answer(PromptKey::Enter, 'y'));
    assert_eq!(Some(false), confirm_answer(PromptKey::Enter, 'n'));
    assert_eq!(None, confirm_answer(PromptKey::Other, 'y'));
}

#[test]
fn shells_have_their_command_line_names() {
    let names: Vec<&str> = TerminalShell::value_variants().iter().map(|s| s.name()).collect();
    assert_eq!(vec!["bash", "elvish", "fish", "nushell", "powershell", "zsh"], names);
}

#[test]
fn editor_command_from_given_words() {
    assert_eq!(
        ("code".to_owned(), vec!["--wait".to_owned()]),
        command_from_words("x".to_owned(), Some(vec!["code".to_owned(), "--wait".to_owned()]))
    );
    assert_eq!(("x".to_owned(), Vec::<String>::new()), command_from_words("x".to_owned(), Some(vec![])));
    assert_eq!(("x".to_owned(), Vec::<String>::new()), command_from_words("x".to_owned(), None));
}

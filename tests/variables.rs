use hitt::{chars_of, parse_variable, parse_variable_declaration, RequestParseError, StringMap};

fn vars_of(pairs: &[(&str, &str)]) -> StringMap {
    let mut vars = StringMap::new();
    for (k, v) in pairs {
        vars.insert((*k).to_owned(), (*v).to_owned());
    }
    vars
}

#[test]
fn it_should_parse_variable_declarations() {
    let empty = StringMap::new();
    for i in i8::MIN..i8::MAX {
        let input_declaration = format!("var{i}");
        let input_value = format!("{i}");

        // the leading '@' is already removed
        let input = format!("{input_declaration}={input_value}");

        let (key, value) = parse_variable_declaration(&chars_of(&input), &empty)
            .expect("it to not return an error")
            .expect("it to return a variable declaration");

        assert_eq!(input_declaration, key);
        assert_eq!(input_value, value);
    }
}

#[test]
fn it_should_allow_emails() {
    let empty = StringMap::new();
    let mut extra_spaces = String::new();

    for i in i8::MIN..i8::MAX {
        extra_spaces.push(' ');

        let input_declaration = format!("var{i}");
        let input_value = format!("mads{i}@mhouge.dk");

        let input =
            format!("{input_declaration}{extra_spaces}={extra_spaces}{input_value}{extra_spaces}");

        let (key, value) = parse_variable_declaration(&chars_of(&input), &empty)
            .expect("it to not return an error")
            .expect("it to return a variable declaration");

        assert_eq!(input_declaration, key);
        assert_eq!(input_value, value);
    }
}

#[test]
fn it_must_include_an_equal_sign() {
    let input = "mads hougesen";

    let result = parse_variable_declaration(&chars_of(input), &StringMap::new())
        .expect("it to not return an error");

    assert_eq!(None, result);
}

#[test]
fn mod_it_should_support_variables() {
    let input = "host={{ hostname }}:{{ port }}";

    {
        let vars = vars_of(&[("hostname", "localhost"), ("port", "5000")]);

        let (name, value) = parse_variable_declaration(&chars_of(input), &vars)
            .expect("it to not return an error")
            .expect("it to be some");

        assert_eq!(name, "host");
        assert_eq!(value, "localhost:5000");
    };

    {
        let result = parse_variable_declaration(&chars_of(input), &StringMap::new())
            .expect_err("it should return RequestParseError::VariableNotFound");

        assert!(matches!(result, RequestParseError::VariableNotFound(var) if var == "hostname"));
    };

    {
        let vars = vars_of(&[("hostname", "localhost")]);

        let result = parse_variable_declaration(&chars_of(input), &vars)
            .expect_err("it should return RequestParseError::VariableNotFound");

        assert!(matches!(result, RequestParseError::VariableNotFound(var) if var == "port"));
    };
}

#[test]
fn mod_it_should_parse_variables() {
    let before = "{";
    let after = "}}";

    for i in i8::MIN..i8::MAX {
        let input_name = format!("name{i}");

        // the first '{' was consumed by the caller
        let input = format!("{before}{input_name}{after}");

        let (output_name, jumps) =
            parse_variable(&chars_of(&input), 0).expect("it to parse as variable");
        assert_eq!(input_name, output_name);
        assert_eq!(input.len(), jumps);
    }
}

#[test]
fn should_trim_variable_whitespace() {
    let mut extra_whitespace = String::new();

    let before = "{";
    let after = "}}";

    for i in i8::MIN..i8::MAX {
        extra_whitespace.push(' ');

        let input_name = format!("name{i}");

        let input = format!("{before}{extra_whitespace}{input_name}{extra_whitespace}{after}");

        let (output_name, jumps) =
            parse_variable(&chars_of(&input), 0).expect("it to parse as variable");

        assert_eq!(input_name, output_name);
        assert_eq!(input.len(), jumps);
    }
}

#[test]
fn it_should_ignore_non_variables() {
    let inputs = [
        " name ",
        " { name n }} ",
        " { name } }",
        " { name",
        " { name} }",
        " { name}",
        " { name}{",
        "name   }}  ",
        "name }}  ",
        "name",
        "name} ",
        "{ name",
        "{ name} }",
        "{ {name} }",
        "{name n}}",
        "{name",
        "{name} }",
        "{name}",
        "{{name x}",
        "{{name}",
        "{{name}}",
        "{} name }}",
    ];

    for input in inputs {
        assert_eq!(None, parse_variable(&chars_of(input), 0));
    }
}

#[test]
fn it_should_not_parse_nested() {
    let input = "{{data}}";

    assert_eq!(None, parse_variable(&chars_of(input), 0));
}

#[test]
fn it_should_ignore_empty_variables() {
    let input = "{}}";

    assert_eq!(None, parse_variable(&chars_of(input), 0));
}

#[test]
fn parse_variable_reads_from_the_given_position() {
    let chars = chars_of("ab{{ x }}cd");
    assert_eq!(Some(("x".to_owned(), 6)), parse_variable(&chars, 3));
    assert_eq!(None, parse_variable(&chars, 2));
    assert_eq!(None, parse_variable(&chars, 11));
}

#[test]
fn declaration_value_may_not_reference_itself() {
    let result = parse_variable_declaration(&chars_of("a = {{a}}"), &StringMap::new())
        .expect_err("a is not set yet");
    assert!(matches!(result, RequestParseError::VariableNotFound(v) if v == "a"));
}

#[test]
fn declaration_splits_at_first_equal_sign() {
    let (name, value) = parse_variable_declaration(&chars_of(" k = a=b "), &StringMap::new())
        .expect("no error")
        .expect("a declaration");
    assert_eq!("k", name);
    assert_eq!("a=b", value);
}

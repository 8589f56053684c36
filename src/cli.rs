//! The decisions of the command-line front end: variable arguments, request files
//! written from prompts, editor commands, and shell names.

use crate::table::StringMap;
use crate::text::{chars_of, same_text, string_of};
use crate::tokenize::string_views;
use crate::header::{header_name_of, is_header_name, is_header_value, is_value};
use crate::uri::{is_uri, uri_accepts};
use crate::variables::first_at;
use vstd::prelude::*;

verus! {

/// A `--var` argument that is not `KEY=VALUE`.
#[derive(Debug)]
pub enum ArgumentError {
    InvalidVariableArgument(String),
}

impl ArgumentError {
    /// A sentence that describes the error.
    pub fn message(&self) -> (r: String)
        ensures
            match self {
                ArgumentError::InvalidVariableArgument(a) => r@ == "'"@ + a@
                    + "' is not a valid variable argument - variable input should be '--var <KEY>=<VALUE>'"@,
            },
    {
        match self {
            ArgumentError::InvalidVariableArgument(a) => {
                let mut r = String::from_str("'");
                r.append(a.as_str());
                r.append(
                    "' is not a valid variable argument - variable input should be '--var <KEY>=<VALUE>'",
                );
                r
            },
        }
    }
}

/// What a `--var` argument sets: the text before its first `=` names the variable and
/// the text after it is the value.
pub open spec fn variable_argument(a: Seq<char>) -> Option<(Seq<char>, Seq<char>)> {
    if exists|k: int| first_at(a, '=', k) {
        let k = choose|k: int| first_at(a, '=', k);
        Some((a.take(k), a.skip(k + 1)))
    } else {
        None
    }
}

/// Splits a `KEY=VALUE` argument at its first `=`.
pub fn parse_variable_argument(argument: &str) -> (r: Result<(String, String), ArgumentError>)
    ensures
        match variable_argument(argument@) {
            Some((k, v)) => r matches Ok((key, value)) && key@ == k && value@ == v,
            None => r matches Err(ArgumentError::InvalidVariableArgument(a)) && a@ == argument@,
        },
{
    let chars = chars_of(argument);
    let mut k: usize = 0;
    while k < chars.len() && chars[k] != '='
        invariant
            k <= chars@.len(),
            chars@ == argument@,
            forall|j: int| 0 <= j < k ==> chars@[j] != '=',
        decreases chars@.len() - k,
    {
        k = k + 1;
    }
    if k == chars.len() {
        assert(!exists|j: int| first_at(chars@, '=', j));
        return Err(ArgumentError::InvalidVariableArgument(argument.to_owned()));
    }
    proof {
        assert(first_at(chars@, '=', k as int));
        let j = choose|j: int| first_at(chars@, '=', j);
        if j < k {
            assert(chars@[j] != '=');
        } else if j > k {
            assert(chars@[k as int] != '=');
        }
        assert(chars@.subrange(0, k as int) =~= chars@.take(k as int));
        assert(chars@.subrange(k + 1, chars@.len() as int) =~= chars@.skip(k + 1));
    }
    let key = string_of(chars.as_slice(), 0, k);
    let value = string_of(chars.as_slice(), k + 1, chars.len());
    Ok((key, value))
}

/// The variables that `--var` arguments set, the later of two with the same name
/// winning; or the first argument that is not `KEY=VALUE`.
pub open spec fn variable_map(args: Seq<Seq<char>>, m: Map<Seq<char>, Seq<char>>) -> Result<
    Map<Seq<char>, Seq<char>>,
    Seq<char>,
>
    decreases args.len(),
{
    if args.len() == 0 {
        Ok(m)
    } else {
        match variable_argument(args[0]) {
            Some((k, v)) => variable_map(args.drop_first(), m.insert(k, v)),
            None => Err(args[0]),
        }
    }
}

/// The variable table that the `--var` arguments set.
pub fn build_variable_map(var: Option<&Vec<String>>) -> (r: Result<StringMap, ArgumentError>)
    ensures
        match var {
            None => r matches Ok(m) && m.wf() && m@ == Map::<Seq<char>, Seq<char>>::empty(),
            Some(args) => match variable_map(string_views(args@), Map::empty()) {
                Ok(vars) => r matches Ok(m) && m.wf() && m@ == vars,
                Err(bad) => r matches Err(ArgumentError::InvalidVariableArgument(a)) && a@ == bad,
            },
        },
{
    let mut vars = StringMap::new();
    match var {
        None => Ok(vars),
        Some(args) => {
            let ghost all = string_views(args@);
            let mut i: usize = 0;
            assert(all.skip(0) =~= all);
            while i < args.len()
                invariant
                    i <= args@.len(),
                    var == Some(args),
                    all == string_views(args@),
                    vars.wf(),
                    variable_map(all, Map::empty()) == variable_map(all.skip(i as int), vars@),
                decreases args@.len() - i,
            {
                proof {
                    assert(all.skip(i as int)[0] == args@[i as int]@);
                    assert(all.skip(i as int).drop_first() =~= all.skip(i + 1));
                }
                match parse_variable_argument(args[i].as_str()) {
                    Ok((key, value)) => {
                        vars.insert(key, value);
                    },
                    Err(e) => {
                        proof {
                            assert(variable_map(all.skip(i as int), vars@) == Err::<
                                Map<Seq<char>, Seq<char>>,
                                Seq<char>,
                            >(args@[i as int]@));
                        }
                        return Err(e);
                    },
                }
                i = i + 1;
            }
            assert(all.skip(i as int) =~= Seq::<Seq<char>>::empty());
            Ok(vars)
        },
    }
}

/// Whether two texts are equal when ASCII capitals count as small letters.
pub fn eq_ignore_ascii_case(a: &[char], b: &[char]) -> (r: bool)
    ensures
        r == (crate::header::ascii_lower(a@) == crate::header::ascii_lower(b@)),
{
    if a.len() != b.len() {
        proof {
            assert(crate::header::ascii_lower(a@).len() != crate::header::ascii_lower(b@).len());
        }
        return false;
    }
    let mut i: usize = 0;
    while i < a.len()
        invariant
            i <= a@.len() == b@.len(),
            forall|j: int|
                0 <= j < i ==> crate::header::lower_char(a@[j]) == crate::header::lower_char(b@[j]),
        decreases a@.len() - i,
    {
        let x = if 'A' <= a[i] && a[i] <= 'Z' {
            ((a[i] as u8) + 32) as char
        } else {
            a[i]
        };
        let y = if 'A' <= b[i] && b[i] <= 'Z' {
            ((b[i] as u8) + 32) as char
        } else {
            b[i]
        };
        if x != y {
            proof {
                assert(crate::header::ascii_lower(a@)[i as int] != crate::header::ascii_lower(b@)[i as int]);
            }
            return false;
        }
        i = i + 1;
    }
    assert(crate::header::ascii_lower(a@) =~= crate::header::ascii_lower(b@));
    true
}

/// The value of the first header whose name is `content-type`, in any case.
pub fn try_find_content_type(headers: &[(String, String)]) -> (r: Option<&str>)
    ensures
        match r {
            Some(v) => exists|i: int|
                0 <= i < headers@.len() && v@ == (#[trigger] headers@[i]).1@
                    && crate::header::ascii_lower(headers@[i].0@) == crate::header::ascii_lower(
                    "content-type"@,
                ) && forall|j: int|
                    0 <= j < i ==> crate::header::ascii_lower((#[trigger] headers@[j]).0@)
                        != crate::header::ascii_lower("content-type"@),
            None => forall|j: int|
                0 <= j < headers@.len() ==> crate::header::ascii_lower((#[trigger] headers@[j]).0@)
                    != crate::header::ascii_lower("content-type"@),
        },
{
    let wanted = chars_of("content-type");
    let mut i: usize = 0;
    while i < headers.len()
        invariant
            i <= headers@.len(),
            wanted@ == "content-type"@,
            forall|j: int|
                0 <= j < i ==> crate::header::ascii_lower((#[trigger] headers@[j]).0@)
                    != crate::header::ascii_lower("content-type"@),
        decreases headers@.len() - i,
    {
        let name = chars_of(headers[i].0.as_str());
        if eq_ignore_ascii_case(name.as_slice(), wanted.as_slice()) {
            return Some(headers[i].1.as_str());
        }
        i = i + 1;
    }
    None
}

/// The file extension that suits a body of the given content type.
pub open spec fn extension_for(content_type: Option<Seq<char>>) -> Seq<char> {
    match content_type {
        Some(t) => if t == "application/json"@ {
            ".json"@
        } else if t == "text/css"@ {
            ".css"@
        } else if t == "text/csv"@ {
            ".csv"@
        } else if t == "text/html"@ {
            ".html"@
        } else if t == "text/javascript"@ {
            ".js"@
        } else if t == "application/ld+json"@ {
            ".jsonld"@
        } else if t == "application/x-httpd-php"@ {
            ".php"@
        } else if t == "application/x-sh"@ {
            ".sh"@
        } else if t == "image/svg+xml"@ {
            ".svg"@
        } else if t == "application/xml"@ || t == "text/xml"@ {
            ".xml"@
        } else {
            ".txt"@
        },
        None => ".txt"@,
    }
}

/// The file extension for editing a body of the given content type.
pub fn content_type_to_ext(content_type: Option<&str>) -> (r: &'static str)
    ensures
        r@ == extension_for(
            match content_type {
                Some(t) => Some(t@),
                None => None,
            },
        ),
{
    match content_type {
        Some(t) => {
            let c = chars_of(t);
            let c = c.as_slice();
            if same_text(c, "application/json") {
                ".json"
            } else if same_text(c, "text/css") {
                ".css"
            } else if same_text(c, "text/csv") {
                ".csv"
            } else if same_text(c, "text/html") {
                ".html"
            } else if same_text(c, "text/javascript") {
                ".js"
            } else if same_text(c, "application/ld+json") {
                ".jsonld"
            } else if same_text(c, "application/x-httpd-php") {
                ".php"
            } else if same_text(c, "application/x-sh") {
                ".sh"
            } else if same_text(c, "image/svg+xml") {
                ".svg"
            } else if same_text(c, "application/xml") || same_text(c, "text/xml") {
                ".xml"
            } else {
                ".txt"
            }
        },
        None => ".txt",
    }
}

/// The header lines of a request file: `name: value` and a newline for each.
pub open spec fn header_lines(headers: Seq<(String, String)>) -> Seq<char>
    decreases headers.len(),
{
    if headers.len() == 0 {
        Seq::empty()
    } else {
        header_lines(headers.drop_last()) + headers.last().0@ + ": "@ + headers.last().1@ + "\n"@
    }
}

/// The text of a request file: the request line, the header lines, then the body
/// after a blank line and followed by a newline.
pub open spec fn request_file(
    method: Seq<char>,
    url: Seq<char>,
    headers: Seq<(String, String)>,
    body: Option<Seq<char>>,
) -> Seq<char> {
    method + " "@ + url + "\n"@ + header_lines(headers) + match body {
        Some(b) => "\n"@ + b + "\n"@,
        None => Seq::empty(),
    }
}

/// The text of the request file that the prompts for a new request describe.
pub fn request_file_text(
    method: &str,
    url: &str,
    headers: &[(String, String)],
    body: Option<String>,
) -> (r: String)
    ensures
        r@ == request_file(
            method@,
            url@,
            headers@,
            match body {
                Some(b) => Some(b@),
                None => None,
            },
        ),
{
    let mut contents = String::from_str(method);
    contents.append(" ");
    contents.append(url);
    contents.append("\n");
    let ghost head = contents@;
    let mut i: usize = 0;
    while i < headers.len()
        invariant
            i <= headers@.len(),
            contents@ == head + header_lines(headers@.take(i as int)),
        decreases headers@.len() - i,
    {
        proof {
            assert(headers@.take(i + 1).drop_last() =~= headers@.take(i as int));
        }
        contents.append(headers[i].0.as_str());
        contents.append(": ");
        contents.append(headers[i].1.as_str());
        contents.append("\n");
        proof {
            assert(contents@ =~= head + header_lines(headers@.take(i + 1)));
        }
        i = i + 1;
    }
    assert(headers@.take(headers@.len() as int) =~= headers@);
    match body {
        Some(content) => {
            contents.append("\n");
            contents.append(content.as_str());
            contents.append("\n");
        },
        None => {
            assert(contents@ + Seq::<char>::empty() =~= contents@);
        },
    }
    contents
}

/// How `shell_words::split` splits a command line into words, or `None` when its
/// quoting is unbalanced.
pub uninterp spec fn shell_words_of(s: Seq<char>) -> Option<Seq<Seq<char>>>;

/// Relies on `shell_words::split`: the words of a command line, a function of the
/// text alone.
#[verifier::external_body]
fn split_words(s: &str) -> (r: Option<Vec<String>>)
    ensures
        r is Some <==> shell_words_of(s@) is Some,
        r matches Some(v) ==> string_views(v@) == shell_words_of(s@)->0,
{
    match shell_words::split(s) {
        Ok(words) => Some(words),
        Err(_) => None,
    }
}

/// The program and arguments of an editor command: its first word and the rest; the
/// whole text with no arguments when it does not split into words.
pub open spec fn editor_command(s: Seq<char>) -> (Seq<char>, Seq<Seq<char>>) {
    match shell_words_of(s) {
        Some(words) => if words.len() > 0 {
            (words[0], words.drop_first())
        } else {
            (s, Seq::empty())
        },
        None => (s, Seq::empty()),
    }
}

/// The program and arguments of an editor command, given the words it splits into:
/// the first word and the rest; the whole command with no arguments when it does not
/// split, or splits into no words.
pub fn command_from_words(editor_cmd: String, words: Option<Vec<String>>) -> (r: (
    String,
    Vec<String>,
))
    ensures
        match words {
            Some(w) if w@.len() > 0 => r.0 == w@[0] && string_views(r.1@) == string_views(
                w@,
            ).drop_first(),
            _ => r.0 == editor_cmd && r.1@.len() == 0,
        },
{
    match words {
        Some(mut parts) => {
            if parts.len() == 0 {
                return (editor_cmd, Vec::new());
            }
            let ghost all = parts@;
            let cmd = parts.remove(0);
            assert(string_views(parts@) =~= string_views(all).drop_first());
            (cmd, parts)
        },
        None => (editor_cmd, Vec::new()),
    }
}

/// Splits an editor command into the program and its arguments.
pub fn build_editor_cmd(editor_cmd: String) -> (r: (String, Vec<String>))
    ensures
        r.0@ == editor_command(editor_cmd@).0,
        string_views(r.1@) == editor_command(editor_cmd@).1,
{
    let words = split_words(editor_cmd.as_str());
    let r = command_from_words(editor_cmd, words);
    proof {
        if r.1@.len() == 0 {
            assert(string_views(r.1@) =~= Seq::<Seq<char>>::empty());
        }
    }
    r
}

/// Whether a status code is a client or server error (400 to 599).
pub fn is_error_status(status_code: u16) -> (r: bool)
    ensures
        r == (400 <= status_code && status_code < 600),
{
    400 <= status_code && status_code < 600
}

/// Whether a response ends the run: fail-fast is on and the status is an error.
pub fn should_fail_fast(fail_fast: bool, status_code: u16) -> (r: bool)
    ensures
        r == (fail_fast && 400 <= status_code && status_code < 600),
{
    fail_fast && is_error_status(status_code)
}

/// The shells that completions can be written for.
#[derive(Debug, Clone, Copy, PartialEq, Eq, Structural)]
pub enum TerminalShell {
    Bash,
    Elvish,
    Fish,
    Nushell,
    Powershell,
    Zsh,
}

/// The name that selects a shell on the command line.
pub open spec fn shell_name(s: TerminalShell) -> Seq<char> {
    match s {
        TerminalShell::Bash => "bash"@,
        TerminalShell::Elvish => "elvish"@,
        TerminalShell::Fish => "fish"@,
        TerminalShell::Nushell => "nushell"@,
        TerminalShell::Powershell => "powershell"@,
        TerminalShell::Zsh => "zsh"@,
    }
}

impl TerminalShell {
    /// Every shell, in the order the command line lists them.
    pub fn value_variants() -> (r: Vec<TerminalShell>)
        ensures
            r@ == seq![
                TerminalShell::Bash,
                TerminalShell::Elvish,
                TerminalShell::Fish,
                TerminalShell::Nushell,
                TerminalShell::Powershell,
                TerminalShell::Zsh,
            ],
    {
        let r = vec![
            TerminalShell::Bash,
            TerminalShell::Elvish,
            TerminalShell::Fish,
            TerminalShell::Nushell,
            TerminalShell::Powershell,
            TerminalShell::Zsh,
        ];
        assert(r@ =~= seq![
            TerminalShell::Bash,
            TerminalShell::Elvish,
            TerminalShell::Fish,
            TerminalShell::Nushell,
            TerminalShell::Powershell,
            TerminalShell::Zsh,
        ]);
        r
    }

    /// The name that selects the shell on the command line.
    pub fn name(&self) -> (r: &'static str)
        ensures
            r@ == shell_name(*self),
    {
        match self {
            TerminalShell::Bash => "bash",
            TerminalShell::Elvish => "elvish",
            TerminalShell::Fish => "fish",
            TerminalShell::Nushell => "nushell",
            TerminalShell::Powershell => "powershell",
            TerminalShell::Zsh => "zsh",
        }
    }
}

/// Whether a typed URL is acceptable: not empty, and a URI.
pub fn valid_url(input: &str) -> (r: bool)
    ensures
        r == (input@.len() > 0 && uri_accepts(input@)),
{
    !input.is_empty() && is_uri(input)
}

/// Whether a typed header name is acceptable: not empty, and a header name.
pub fn valid_header_key(input: &str) -> (r: bool)
    ensures
        r == (input@.len() > 0 && is_header_name(input@)),
{
    !input.is_empty() && header_name_of(input).is_some()
}

/// Whether a typed header value is acceptable: not empty, and a header value.
pub fn valid_header_value(input: &str) -> (r: bool)
    ensures
        r == (input@.len() > 0 && is_header_value(input@)),
{
    !input.is_empty() && is_value(input)
}

} // verus!

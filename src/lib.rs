//! Parsing of plain-text HTTP request files into structured requests.
//!
//! A request file holds one or more requests separated by `###` lines. Each has a
//! request line (`METHOD URI [VERSION]`), header lines (`Name: Value`), and after a
//! blank line a body. `@name = value` lines before a request line declare variables,
//! and `{{ name }}` anywhere in a field or the body stands for a variable's value.

pub mod cli;
pub mod error;
pub mod field;
pub mod formatter;
pub mod header;
pub mod laws;
pub mod method;
pub mod prompt;
pub mod request;
pub mod table;
pub mod text;
pub mod tokenize;
pub mod uri;
pub mod variables;
pub mod version;

pub use cli::{
    build_editor_cmd, build_variable_map, content_type_to_ext, parse_variable_argument,
    request_file_text, try_find_content_type, ArgumentError, TerminalShell,
};
pub use error::RequestParseError;
pub use formatter::{body_text, format_json, ContentType};
pub use header::{parse_header, HeaderToken};
pub use method::{parse_method_input, HttpMethod};
pub use request::{parse_requests, HittRequest, PartialHittRequest};
pub use table::StringMap;
pub use text::chars_of;
pub use tokenize::{header_lines_fit, tokenize, RequestToken};
pub use uri::parse_uri_input;
pub use variables::{parse_variable, parse_variable_declaration};
pub use version::{parse_http_version, HttpVersion};

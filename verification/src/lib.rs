//! A verified single-pass JSON parser.
//!
//! The library converts a JSON-formatted character sequence into an
//! in-memory tagged-union tree ([`JsonValue`]) by recursive descent.
//! The parser is fail-fast: it returns the first error it encounters,
//! and it rejects trailing non-whitespace content after the value.
//!
//! The observable behaviour of every parsing routine is pinned down by
//! a mathematical description of the grammar in [`grammar`]: the
//! executable parser is proved to return exactly what the specification
//! functions compute, for every input.

pub mod chars;
pub mod error;
pub mod grammar;
pub mod laws;
pub mod parser;
pub mod text;
pub mod value;

pub use error::ParseError;
pub use parser::JsonParser;
pub use value::JsonValue;

use vstd::prelude::*;

verus! {

/// Convenience function to parse a JSON string in one step.
///
/// Returns the parsed value tree exactly when the whole input is one
/// JSON value surrounded by optional whitespace, as computed by
/// [`grammar::parse_result`]; otherwise the error carries the message
/// of the first failure condition encountered.
pub fn parse_json(input: &str) -> (r: Result<JsonValue, ParseError>)
    ensures
        (match grammar::parse_result(input@) {
            Ok(v) => r matches Ok(jv) && jv@ == v,
            Err(k) => r matches Err(e) && e@ == error::error_message(k),
        }),
{
    let mut parser = JsonParser::new(input);
    parser.parse()
}

} // verus!

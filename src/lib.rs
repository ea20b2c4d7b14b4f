use vstd::prelude::*;

pub mod json;
pub mod lexer;
pub mod parser;

use crate::json::{JSON, json_view, json_wf};
use crate::parser::{ParseError, Parser, parsed_result, spec_parse};

verus! {

/// Decodes one JSON value from `input`, or gives the first error with its line. Every
/// object in the value has distinct keys.
pub fn parse(input: &str) -> (r: Result<JSON, ParseError>)
    requires
        input@.len() < u64::MAX,
    ensures
        parsed_result(r, spec_parse(input@)),
        match r {
            Ok(v) => json_wf(json_view(v)),
            Err(_) => true,
        },
{
    let mut parser = Parser::new(input);
    parser.parse()
}

} // verus!

//! The entry point.

use vstd::prelude::*;
use crate::grammar::{is_rest_of, value_rule, yields};
use crate::object_parsers::parse_value;
use crate::value::{JsonValue, ParseError};

verus! {

/// Reads one value from the front of a document.
pub struct JsonParser {}

impl JsonParser {
    /// A parser. It holds no state: every call of [`JsonParser::parse`]
    /// stands for itself.
    pub fn new() -> (parser: JsonParser) {
        JsonParser {  }
    }

    /// Reads the value at the front of `json` and returns it with the text
    /// behind it. The text behind the value is not looked at: a caller
    /// that wants the document to hold nothing else tests that it is
    /// empty. The depth to which arrays and objects may be nested is
    /// bounded by the stack alone.
    pub fn parse<'a>(self, json: &'a str) -> (r: Result<(&'a str, JsonValue), ParseError<'a>>)
        ensures
            yields(r, value_rule(json@)),
            r matches Ok((rest, _)) ==> is_rest_of(rest@, json@) && rest@.len() < json@.len(),
    {
        parse_value(json)
    }
}

} // verus!

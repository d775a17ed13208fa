//! A value together with the key under which it stands.

use vstd::prelude::*;
use crate::grammar::key_value_rule;
use crate::object_parsers::parse_key_value;
use crate::value::{Failure, JsonModel, JsonValue, NumberType, ParseError};

verus! {

/// The kind of an element: any value.
pub type ElementKind = JsonValue;

/// The kind of a number.
pub type NumberKind = NumberType;

/// A key and the value that stands under it.
#[derive(Debug, PartialEq)]
pub struct Element {
    kind: ElementKind,
    key: String,
}

impl View for Element {
    type V = (Seq<char>, JsonModel);

    closed spec fn view(&self) -> (Seq<char>, JsonModel) {
        (self.key@, self.kind@)
    }
}

impl Element {
    pub fn new(key: String, kind: ElementKind) -> (element: Element)
        ensures
            element@ == (key@, kind@),
    {
        Element { key, kind }
    }

    pub fn key(&self) -> (key: &String)
        ensures
            key@ == self@.0,
    {
        &self.key
    }

    pub fn kind(&self) -> (kind: &ElementKind)
        ensures
            kind@ == self@.1,
    {
        &self.kind
    }
}

/// Recognizes a key with its value, as [`parse_key_value`] does, and
/// returns them as an element.
pub fn build_element<'a>(input: &'a str) -> (r: Result<(&'a str, Element), ParseError<'a>>)
    ensures
        match r {
            Ok((rest, element)) => key_value_rule(input@) == Ok::<
                (Seq<char>, (Seq<char>, JsonModel)),
                Failure,
            >((rest@, element@)),
            Err(error) => key_value_rule(input@) == Err::<
                (Seq<char>, (Seq<char>, JsonModel)),
                Failure,
            >(error@),
        },
{
    match parse_key_value(input) {
        Ok((rest, (key, value))) => Ok((rest, Element::new(key, value))),
        Err(error) => Err(error),
    }
}

} // verus!

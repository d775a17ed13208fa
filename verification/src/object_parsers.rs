//! The recognizers of values: the dispatcher, and arrays and objects,
//! which call it for each of their parts.
//!
//! The recognizers call each other for every level of nesting in the text,
//! so the depth of nesting that can be read is bounded by the stack.

use vstd::prelude::*;
use crate::grammar::{
    array_rule, elements_rule, is_rest_of, key_value_rule, lemma_skip_spaces_len, members_rule,
    more_elements, more_members, object_rule, value_rule, yields,
};
use crate::laws::{lemma_key_value_consumes, lemma_string_consumes, lemma_value_consumes};
use crate::primitive_parsers::{
    consume_spaces, parse_bool, parse_float, parse_integer, parse_null, parse_string,
    parse_string_text, strip_char,
};
use crate::value::{
    array_models, lemma_array_models_push, lemma_members_map_push, members_map, ErrorKind,
    Failure, JsonModel, JsonObject, JsonValue, ParseError,
};

verus! {

/// Recognizes a value: the first of string, float, integer, boolean,
/// array, object and null that accepts the text.
///
/// What remains behind a value is a rest of the text and shorter than it.
/// An array or object inside the value is read by a call from within this
/// one, so text that is nested very deeply can exhaust the stack.
pub fn parse_value<'a>(input: &'a str) -> (r: Result<(&'a str, JsonValue), ParseError<'a>>)
    ensures
        yields(r, value_rule(input@)),
        r matches Ok((rest, _)) ==> is_rest_of(rest@, input@) && rest@.len() < input@.len(),
    decreases input@.len(), 1int,
{
    proof {
        lemma_value_consumes(input@);
    }
    if let Ok(found) = parse_string(input) {
        return Ok(found);
    }
    if let Ok(found) = parse_float(input) {
        return Ok(found);
    }
    if let Ok(found) = parse_integer(input) {
        return Ok(found);
    }
    if let Ok(found) = parse_bool(input) {
        return Ok(found);
    }
    if let Ok(found) = parse_array(input) {
        return Ok(found);
    }
    if let Ok(found) = parse_object(input) {
        return Ok(found);
    }
    if let Ok(found) = parse_null(input) {
        return Ok(found);
    }
    Err(ParseError { kind: ErrorKind::NoAlternativeMatched, input })
}

/// Recognizes a key and its value: a string, a `:`, optional whitespace
/// and a value. The key is returned as text, not as a value.
pub fn parse_key_value<'a>(input: &'a str) -> (r: Result<
    (&'a str, (String, JsonValue)),
    ParseError<'a>,
>)
    ensures
        match r {
            Ok((rest, (key, value))) => key_value_rule(input@) == Ok::<
                (Seq<char>, (Seq<char>, JsonModel)),
                Failure,
            >((rest@, (key@, value@))),
            Err(error) => key_value_rule(input@) == Err::<
                (Seq<char>, (Seq<char>, JsonModel)),
                Failure,
            >(error@),
        },
    decreases input@.len(), 2int,
{
    let (colon, key) = match parse_string_text(input) {
        Ok(found) => found,
        Err(error) => {
            return Err(error);
        },
    };
    let behind_colon = match strip_char(colon, ':') {
        Some(rest) => rest,
        None => {
            return Err(ParseError { kind: ErrorKind::DelimiterMissing, input: colon });
        },
    };
    let start = consume_spaces(behind_colon);
    proof {
        lemma_string_consumes(input@);
        lemma_skip_spaces_len(colon@.skip(1));
    }
    match parse_value(start) {
        Ok((rest, value)) => Ok((rest, (key, value))),
        Err(error) => Err(error),
    }
}

/// Recognizes a list of values separated by `,`, each `,` optionally
/// followed by whitespace. The list may be empty, so this always
/// succeeds; it returns what remains and the values in the order of the
/// text.
pub fn parse_array_values<'a>(input: &'a str) -> (r: (&'a str, Vec<JsonValue>))
    ensures
        elements_rule(input@) == (array_models(r.1@), r.0@),
    decreases input@.len(), 2int,
{
    let mut items: Vec<JsonValue> = Vec::new();
    let (first_rest, first) = match parse_value(input) {
        Ok(found) => found,
        Err(_) => {
            return (input, items);
        },
    };
    let mut rest = first_rest;
    proof {
        lemma_value_consumes(input@);
        lemma_array_models_push(items@, first);
        assert(array_models(items@).push(first@) =~= seq![first@]);
    }
    items.push(first);
    loop
        invariant
            rest@.len() < input@.len(),
            elements_rule(input@) == (
                array_models(items@) + more_elements(rest@).0,
                more_elements(rest@).1,
            ),
        ensures
            elements_rule(input@) == (array_models(items@), rest@),
        decreases rest@.len(),
    {
        let behind_comma = match strip_char(rest, ',') {
            Some(behind) => behind,
            None => {
                proof {
                    assert(array_models(items@) + Seq::empty() =~= array_models(items@));
                }
                break ;
            },
        };
        let start = consume_spaces(behind_comma);
        proof {
            lemma_skip_spaces_len(rest@.skip(1));
            lemma_value_consumes(start@);
        }
        match parse_value(start) {
            Ok((behind, next)) => {
                proof {
                    lemma_array_models_push(items@, next);
                    assert(array_models(items@).push(next@) + more_elements(behind@).0
                        =~= array_models(items@) + (seq![next@] + more_elements(behind@).0));
                }
                items.push(next);
                rest = behind;
            },
            Err(_) => {
                proof {
                    assert(array_models(items@) + Seq::empty() =~= array_models(items@));
                }
                break ;
            },
        }
    }
    (rest, items)
}

/// Recognizes an array: a `[`, optional whitespace, a list of values,
/// optional whitespace and a `]`.
pub fn parse_array<'a>(input: &'a str) -> (r: Result<(&'a str, JsonValue), ParseError<'a>>)
    ensures
        yields(r, array_rule(input@)),
    decreases input@.len(), 0int,
{
    let behind_bracket = match strip_char(input, '[') {
        Some(behind) => behind,
        None => {
            return Err(ParseError { kind: ErrorKind::DelimiterMissing, input });
        },
    };
    let start = consume_spaces(behind_bracket);
    proof {
        lemma_skip_spaces_len(input@.skip(1));
    }
    let (behind_items, items) = parse_array_values(start);
    let closing = consume_spaces(behind_items);
    match strip_char(closing, ']') {
        Some(rest) => {
            proof {
            }
            Ok((rest, JsonValue::Array(items)))
        },
        None => Err(ParseError { kind: ErrorKind::StructureUnterminated, input: closing }),
    }
}

/// Recognizes an object: a `{`, optional whitespace, a list of members
/// separated by `,`, each `,` optionally followed by whitespace, optional
/// whitespace and a `}`. Of two members with one key the later one stays.
pub fn parse_object<'a>(input: &'a str) -> (r: Result<(&'a str, JsonValue), ParseError<'a>>)
    ensures
        yields(r, object_rule(input@)),
    decreases input@.len(), 0int,
{
    let behind_brace = match strip_char(input, '{') {
        Some(behind) => behind,
        None => {
            return Err(ParseError { kind: ErrorKind::DelimiterMissing, input });
        },
    };
    let start = consume_spaces(behind_brace);
    proof {
        lemma_skip_spaces_len(input@.skip(1));
    }
    let mut object = JsonObject::new();
    let mut rest = start;
    let ghost mut members: Seq<(Seq<char>, JsonModel)> = Seq::empty();
    match parse_key_value(start) {
        Err(_) => {},
        Ok((first_rest, (key, value))) => {
            proof {
                lemma_key_value_consumes(start@);
                lemma_members_map_push(members, key@, value@);
                members = members.push((key@, value@));
            }
            object.insert(key, value);
            rest = first_rest;
            loop
                invariant
                    rest@.len() < start@.len(),
                    start@.len() < input@.len(),
                    object@ == members_map(members),
                    members_rule(start@) == (
                        members + more_members(rest@).0,
                        more_members(rest@).1,
                    ),
                ensures
                    object@ == members_map(members),
                    members_rule(start@) == (members, rest@),
                decreases rest@.len(),
            {
                let behind_comma = match strip_char(rest, ',') {
                    Some(behind) => behind,
                    None => {
                        proof {
                            assert(members + Seq::empty() =~= members);
                        }
                        break ;
                    },
                };
                let next_start = consume_spaces(behind_comma);
                proof {
                    lemma_skip_spaces_len(rest@.skip(1));
                    lemma_key_value_consumes(next_start@);
                }
                match parse_key_value(next_start) {
                    Ok((behind, (key, value))) => {
                        proof {
                            assert(members.push((key@, value@)) + more_members(behind@).0
                                =~= members + (seq![(key@, value@)] + more_members(behind@).0));
                            lemma_members_map_push(members, key@, value@);
                            members = members.push((key@, value@));
                        }
                        object.insert(key, value);
                        rest = behind;
                    },
                    Err(_) => {
                        proof {
                            assert(members + Seq::empty() =~= members);
                        }
                        break ;
                    },
                }
            }
        },
    }
    let closing = consume_spaces(rest);
    match strip_char(closing, '}') {
        Some(behind) => Ok((behind, JsonValue::Object(object))),
        None => Err(ParseError { kind: ErrorKind::StructureUnterminated, input: closing }),
    }
}

} // verus!

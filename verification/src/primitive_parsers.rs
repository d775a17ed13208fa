//! The recognizers of single tokens: whitespace, strings, numbers and the
//! three literals.

use vstd::prelude::*;
use crate::grammar::{
    bool_rule, decimal_value, digit_value, float_literal_len, float_rule, integer_rule,
    leading_digits, lemma_float_literal_alone, lemma_leading_digits_len, null_rule,
    quote_free_len, skip_spaces, starts_with, string_rule, string_token, word_false, word_null,
    word_true, yields,
};
use crate::number::read_float_bits;
use crate::text::{prefix_before, split_first};
use crate::value::{ErrorKind, Failure, JsonValue, NumberType, ParseError};

verus! {

/// Takes `c` from the front of `input`, if it stands there.
pub(crate) fn strip_char(input: &str, c: char) -> (r: Option<&str>)
    requires
        (c as u32) < 0x80,
    ensures
        match r {
            Some(rest) => starts_with(input@, c) && rest@ == input@.skip(1),
            None => !starts_with(input@, c),
        },
{
    match split_first(input) {
        Some((code, rest)) => {
            if code == c as u8 {
                proof {
                    vstd::utf8::char_u32_cast(c, c as u32);
                    vstd::utf8::char_u32_cast(input@[0], input@[0] as u32);
                }
                Some(rest)
            } else {
                None
            }
        },
        None => None,
    }
}

/// Skips the whitespace at the front of `input`: spaces and newlines.
/// It always succeeds, and what it returns starts with no whitespace.
pub fn consume_spaces(input: &str) -> (rest: &str)
    ensures
        rest@ == skip_spaces(input@),
{
    let mut rest = input;
    loop
        invariant
            skip_spaces(rest@) == skip_spaces(input@),
        ensures
            rest@ == skip_spaces(input@),
        decreases rest@.len(),
    {
        match split_first(rest) {
            Some((code, behind)) => {
                if code == 0x20 || code == 0x0a {
                    proof {
                        vstd::utf8::char_u32_cast(rest@[0], rest@[0] as u32);
                    }
                    rest = behind;
                } else {
                    proof {
                        vstd::utf8::char_u32_cast(' ', ' ' as u32);
                    }
                    break ;
                }
            },
            None => {
                break ;
            },
        }
    }
    rest
}

/// Takes `word` from the front of `input`, if it stands there.
pub(crate) fn strip_word<'a>(input: &'a str, word: &str) -> (r: Option<&'a str>)
    requires
        vstd::utf8::is_ascii_chars(word@),
    ensures
        match r {
            Some(rest) => word@.is_prefix_of(input@) && rest@ == input@.skip(word@.len() as int),
            None => !word@.is_prefix_of(input@),
        },
{
    let mut rest = input;
    let mut wanted = word;
    let ghost mut i: int = 0;
    loop
        invariant
            0 <= i <= word@.len(),
            i <= input@.len(),
            wanted@ == word@.skip(i),
            rest@ == input@.skip(i),
            word@.take(i) == input@.take(i),
            vstd::utf8::is_ascii_chars(word@),
        decreases wanted@.len(),
    {
        match split_first(wanted) {
            None => {
                proof {
                    assert(word@.take(i) =~= word@);
                }
                return Some(rest);
            },
            Some((code, wanted_behind)) => {
                match split_first(rest) {
                    None => {
                        return None;
                    },
                    Some((found, rest_behind)) => {
                        proof {
                            vstd::utf8::char_u32_cast(wanted@[0], wanted@[0] as u32);
                            vstd::utf8::char_u32_cast(rest@[0], rest@[0] as u32);
                        }
                        if found != code {
                            return None;
                        }
                        proof {
                            assert(word@.take(i + 1) =~= word@.take(i).push(word@[i]));
                            assert(input@.take(i + 1) =~= input@.take(i).push(input@[i]));
                        }
                        wanted = wanted_behind;
                        rest = rest_behind;
                        proof {
                            i = i + 1;
                        }
                    },
                }
            },
        }
    }
}

/// What [`read_digits`] found at the front of a text.
pub struct DigitRun<'a> {
    /// The text behind the digits.
    pub rest: &'a str,
    /// Whether there was at least one digit.
    pub found: bool,
    /// The number that the digits denote, unless it exceeds `i32::MAX`.
    pub value: Option<u32>,
}

/// Reads the digits at the front of `input`.
pub fn read_digits(input: &str) -> (run: DigitRun<'_>)
    ensures
        run.rest@ == input@.skip(leading_digits(input@) as int),
        run.found == (leading_digits(input@) > 0),
        run.value == if decimal_value(input@.take(leading_digits(input@) as int)) <= i32::MAX {
            Some(decimal_value(input@.take(leading_digits(input@) as int)) as u32)
        } else {
            None
        },
{
    let mut rest = input;
    let mut found = false;
    let mut value: Option<u32> = Some(0);
    let ghost mut i: int = 0;
    loop
        invariant
            0 <= i <= input@.len(),
            rest@ == input@.skip(i),
            leading_digits(input@) == i + leading_digits(rest@),
            found == (i > 0),
            value == if decimal_value(input@.take(i)) <= i32::MAX {
                Some(decimal_value(input@.take(i)) as u32)
            } else {
                None
            },
        ensures
            rest@ == input@.skip(i),
            leading_digits(input@) == i,
            found == (i > 0),
            value == if decimal_value(input@.take(i)) <= i32::MAX {
                Some(decimal_value(input@.take(i)) as u32)
            } else {
                None
            },
        decreases rest@.len(),
    {
        match split_first(rest) {
            None => {
                break ;
            },
            Some((code, behind)) => {
                proof {
                    vstd::utf8::char_u32_cast(rest@[0], rest@[0] as u32);
                    vstd::utf8::char_u32_cast('0', '0' as u32);
                    vstd::utf8::char_u32_cast('9', '9' as u32);
                }
                if code < '0' as u8 || code > '9' as u8 {
                    break ;
                }
                let digit: u32 = (code - '0' as u8) as u32;
                proof {
                    assert(input@.take(i + 1).drop_last() =~= input@.take(i));
                    assert(input@.take(i + 1).last() == rest@[0]);
                    assert(digit == digit_value(rest@[0]));
                }
                value = match value {
                    Some(sofar) => {
                        let next: u64 = sofar as u64 * 10 + digit as u64;
                        if next > i32::MAX as u64 {
                            None
                        } else {
                            Some(next as u32)
                        }
                    },
                    None => None,
                };
                rest = behind;
                found = true;
                proof {
                    i = i + 1;
                }
            },
        }
    }
    DigitRun { rest, found, value }
}

/// Recognizes a string token and returns its text: what stands between a
/// `"` and the next `"`, with no escape sequence interpreted.
pub fn parse_string_text<'a>(input: &'a str) -> (r: Result<(&'a str, String), ParseError<'a>>)
    ensures
        match r {
            Ok((rest, text)) => string_token(input@) == Ok::<(Seq<char>, Seq<char>), Failure>(
                (rest@, text@),
            ),
            Err(error) => string_token(input@) == Err::<(Seq<char>, Seq<char>), Failure>(error@),
        },
{
    let body = match strip_char(input, '"') {
        Some(body) => body,
        None => {
            return Err(ParseError { kind: ErrorKind::DelimiterMissing, input });
        },
    };
    let mut cursor = body;
    let ghost mut i: int = 0;
    loop
        invariant
            0 <= i <= body@.len(),
            cursor@ == body@.skip(i),
            quote_free_len(body@) == i + quote_free_len(cursor@),
            body@ == input@.skip(1),
            starts_with(input@, '"'),
        decreases cursor@.len(),
    {
        match split_first(cursor) {
            None => {
                return Err(ParseError { kind: ErrorKind::DelimiterMissing, input: body });
            },
            Some((code, behind)) => {
                proof {
                    vstd::utf8::char_u32_cast(cursor@[0], cursor@[0] as u32);
                    vstd::utf8::char_u32_cast('"', '"' as u32);
                }
                if code == '"' as u8 {
                    let text = prefix_before(body, cursor);
                    proof {
                        assert(behind@ =~= body@.skip(i + 1));
                    }
                    return Ok((behind, text.to_owned()));
                }
                proof {
                    assert(behind@ =~= body@.skip(i + 1));
                    i = i + 1;
                }
                cursor = behind;
            },
        }
    }
}

/// Recognizes a string.
pub fn parse_string<'a>(input: &'a str) -> (r: Result<(&'a str, JsonValue), ParseError<'a>>)
    ensures
        yields(r, string_rule(input@)),
{
    match parse_string_text(input) {
        Ok((rest, text)) => Ok((rest, JsonValue::String(text))),
        Err(error) => Err(error),
    }
}

/// Recognizes an integer: an optional `-` and one or more digits.
///
/// Digits that stand for more than `i32::MAX` are refused with
/// [`ErrorKind::NumericOverflow`], whatever the sign.
pub fn parse_integer<'a>(input: &'a str) -> (r: Result<(&'a str, JsonValue), ParseError<'a>>)
    ensures
        yields(r, integer_rule(input@)),
{
    let (negative, digits) = match strip_char(input, '-') {
        Some(rest) => (true, rest),
        None => (false, input),
    };
    let run = read_digits(digits);
    if !run.found {
        return Err(ParseError { kind: ErrorKind::DigitsMissing, input: digits });
    }
    match run.value {
        None => Err(ParseError { kind: ErrorKind::NumericOverflow, input: digits }),
        Some(magnitude) => {
            let number: i32 = if negative {
                -(magnitude as i32)
            } else {
                magnitude as i32
            };
            Ok((run.rest, JsonValue::Number(NumberType::Integer(number))))
        },
    }
}

/// Recognizes a float: an optional `-`, one or more digits, a `.` and one
/// or more digits. Text of the shape of an integer is refused, so that it
/// is left to [`parse_integer`].
pub fn parse_float<'a>(input: &'a str) -> (r: Result<(&'a str, JsonValue), ParseError<'a>>)
    ensures
        yields(r, float_rule(input@)),
{
    let whole = match strip_char(input, '-') {
        Some(rest) => rest,
        None => input,
    };
    let before_point = read_digits(whole);
    if !before_point.found {
        return Err(ParseError { kind: ErrorKind::DigitsMissing, input: whole });
    }
    let fraction = match strip_char(before_point.rest, '.') {
        Some(rest) => rest,
        None => {
            return Err(
                ParseError { kind: ErrorKind::DelimiterMissing, input: before_point.rest },
            );
        },
    };
    let behind_point = read_digits(fraction);
    if !behind_point.found {
        return Err(ParseError { kind: ErrorKind::DigitsMissing, input: fraction });
    }
    let rest = behind_point.rest;
    proof {
        lemma_leading_digits_len(whole@);
        lemma_leading_digits_len(fraction@);
        lemma_float_literal_alone(input@);
        let len = float_literal_len(input@)->Ok_0 as int;
        assert(rest@ =~= input@.skip(len));
    }
    let literal = prefix_before(input, rest);
    let bits = read_float_bits(literal);
    Ok((rest, JsonValue::Number(NumberType::Float(bits))))
}

/// Recognizes a boolean: exactly `true` or `false`.
pub fn parse_bool<'a>(input: &'a str) -> (r: Result<(&'a str, JsonValue), ParseError<'a>>)
    ensures
        yields(r, bool_rule(input@)),
{
    proof {
        reveal_strlit("true");
        reveal_strlit("false");
        assert("true"@ =~= word_true());
        assert("false"@ =~= word_false());
    }
    if let Some(rest) = strip_word(input, "true") {
        return Ok((rest, JsonValue::Boolean(true)));
    }
    if let Some(rest) = strip_word(input, "false") {
        return Ok((rest, JsonValue::Boolean(false)));
    }
    Err(ParseError { kind: ErrorKind::LiteralMissing, input })
}

/// Recognizes null: exactly `null`.
pub fn parse_null<'a>(input: &'a str) -> (r: Result<(&'a str, JsonValue), ParseError<'a>>)
    ensures
        yields(r, null_rule(input@)),
{
    proof {
        reveal_strlit("null");
        assert("null"@ =~= word_null());
    }
    match strip_word(input, "null") {
        Some(rest) => Ok((rest, JsonValue::Null)),
        None => Err(ParseError { kind: ErrorKind::LiteralMissing, input }),
    }
}

} // verus!

use json_parser::primitive_parsers::{
    consume_spaces, parse_bool, parse_float, parse_integer, parse_null, parse_string,
    parse_string_text, read_digits,
};
use json_parser::value::{ErrorKind, JsonValue, NumberType, ParseError};

fn float(number: f32) -> JsonValue {
    JsonValue::Number(NumberType::Float(number.to_bits()))
}

fn integer(number: i32) -> JsonValue {
    JsonValue::Number(NumberType::Integer(number))
}

fn failure(kind: ErrorKind, input: &str) -> ParseError<'_> {
    ParseError { kind, input }
}

#[test]
fn test_parse_string() {
    assert_eq!(
        parse_string("\"this is a string\""),
        Ok(("", JsonValue::String("this is a string".to_string())))
    );
    assert_eq!(
        parse_string("\"other string\", ..."),
        Ok((", ...", JsonValue::String("other string".to_string())))
    );

    assert_eq!(
        parse_string("not delimited string"),
        Err(failure(ErrorKind::DelimiterMissing, "not delimited string"))
    )
}

#[test]
fn test_parse_integer() {
    assert_eq!(parse_integer("2001"), Ok(("", integer(2001))));
    assert_eq!(
        parse_integer("2001 ...continue"),
        Ok((" ...continue", integer(2001)))
    );

    assert_eq!(parse_integer("-9999 uwu"), Ok((" uwu", integer(-9999))));

    assert_eq!(
        parse_integer(""),
        Err(failure(ErrorKind::DigitsMissing, ""))
    );
    assert_eq!(
        parse_integer("not a number"),
        Err(failure(ErrorKind::DigitsMissing, "not a number"))
    )
}

#[test]
fn test_parse_float() {
    assert_eq!(parse_float("2001.22"), Ok(("", float(2001.22))));
    assert_eq!(
        parse_float("2001.99 ...continue"),
        Ok((" ...continue", float(2001.99)))
    );

    assert_eq!(parse_float("-9999.2134 uwu"), Ok((" uwu", float(-9999.2134))));

    assert_eq!(parse_float(""), Err(failure(ErrorKind::DigitsMissing, "")));
    assert_eq!(
        parse_float("not a number"),
        Err(failure(ErrorKind::DigitsMissing, "not a number"))
    )
}

#[test]
fn test_parse_bool() {
    assert_eq!(parse_bool("true"), Ok(("", JsonValue::Boolean(true))));
    assert_eq!(parse_bool("false"), Ok(("", JsonValue::Boolean(false))));

    assert_eq!(
        parse_bool("true ...and other content"),
        Ok((" ...and other content", JsonValue::Boolean(true)))
    );

    assert_eq!(
        parse_bool("not a bool"),
        Err(failure(ErrorKind::LiteralMissing, "not a bool"))
    );
}

#[test]
fn test_parse_null() {
    assert_eq!(parse_null("null"), Ok(("", JsonValue::Null)));
    assert_eq!(
        parse_null("null ...another text"),
        Ok((" ...another text", JsonValue::Null))
    );

    assert_eq!(
        parse_null("not null"),
        Err(failure(ErrorKind::LiteralMissing, "not null"))
    )
}

#[test]
fn consume_spaces_takes_spaces_and_newlines_only() {
    assert_eq!(consume_spaces(""), "");
    assert_eq!(consume_spaces("abc"), "abc");
    assert_eq!(consume_spaces("  \n \n\nabc  "), "abc  ");
    assert_eq!(consume_spaces(" \tabc"), "\tabc");
    assert_eq!(consume_spaces(" \r\nabc"), "\r\nabc");
    assert_eq!(consume_spaces("   "), "");
}

#[test]
fn read_digits_reports_rest_presence_and_value() {
    let run = read_digits("0042abc");
    assert_eq!(run.rest, "abc");
    assert!(run.found);
    assert_eq!(run.value, Some(42));

    let run = read_digits("abc");
    assert_eq!(run.rest, "abc");
    assert!(!run.found);
    assert_eq!(run.value, Some(0));

    let run = read_digits("2147483647");
    assert_eq!(run.value, Some(2147483647));
    let run = read_digits("2147483648,");
    assert_eq!(run.rest, ",");
    assert!(run.found);
    assert_eq!(run.value, None);
    let run = read_digits("99999999999999999999999999999999999999");
    assert_eq!(run.rest, "");
    assert_eq!(run.value, None);
}

#[test]
fn string_takes_everything_up_to_the_next_quote() {
    assert_eq!(parse_string("\"\""), Ok(("", JsonValue::String(String::new()))));
    assert_eq!(
        parse_string("\"a\\\"b\" rest"),
        Ok(("b\" rest", JsonValue::String("a\\".to_string())))
    );
    assert_eq!(
        parse_string("\"line\nbreak \u{e9}\u{4e2d}\u{1f600}\"\u{e9}"),
        Ok((
            "\u{e9}",
            JsonValue::String("line\nbreak \u{e9}\u{4e2d}\u{1f600}".to_string())
        ))
    );
    assert_eq!(
        parse_string_text("\"key\": 1"),
        Ok((": 1", "key".to_string()))
    );
}

#[test]
fn string_without_closing_quote_fails_behind_the_opening_quote() {
    assert_eq!(
        parse_string("\"never closed"),
        Err(failure(ErrorKind::DelimiterMissing, "never closed"))
    );
    assert_eq!(
        parse_string("\""),
        Err(failure(ErrorKind::DelimiterMissing, ""))
    );
    assert_eq!(parse_string(""), Err(failure(ErrorKind::DelimiterMissing, "")));
}

#[test]
fn integer_limits() {
    assert_eq!(parse_integer("2147483647"), Ok(("", integer(i32::MAX))));
    assert_eq!(parse_integer("-2147483647"), Ok(("", integer(-i32::MAX))));
    assert_eq!(parse_integer("0"), Ok(("", integer(0))));
    assert_eq!(parse_integer("-0"), Ok(("", integer(0))));
    assert_eq!(parse_integer("000123x"), Ok(("x", integer(123))));
    assert_eq!(
        parse_integer("2147483648"),
        Err(failure(ErrorKind::NumericOverflow, "2147483648"))
    );
    assert_eq!(
        parse_integer("-2147483648"),
        Err(failure(ErrorKind::NumericOverflow, "2147483648"))
    );
    assert_eq!(
        parse_integer("-123456789012345678901234567890 tail"),
        Err(failure(
            ErrorKind::NumericOverflow,
            "123456789012345678901234567890 tail"
        ))
    );
}

#[test]
fn integer_fails_behind_the_sign() {
    assert_eq!(
        parse_integer("-abc"),
        Err(failure(ErrorKind::DigitsMissing, "abc"))
    );
    assert_eq!(parse_integer("-"), Err(failure(ErrorKind::DigitsMissing, "")));
    assert_eq!(
        parse_integer("+1"),
        Err(failure(ErrorKind::DigitsMissing, "+1"))
    );
    assert_eq!(parse_integer("12.5"), Ok((".5", integer(12))));
}

#[test]
fn float_refuses_the_shape_of_an_integer() {
    assert_eq!(
        parse_float("115 ...rest"),
        Err(failure(ErrorKind::DelimiterMissing, " ...rest"))
    );
    assert_eq!(
        parse_float("115"),
        Err(failure(ErrorKind::DelimiterMissing, ""))
    );
    assert_eq!(
        parse_float("115.x"),
        Err(failure(ErrorKind::DigitsMissing, "x"))
    );
    assert_eq!(
        parse_float("-.5"),
        Err(failure(ErrorKind::DigitsMissing, ".5"))
    );
    assert_eq!(
        parse_float(".5"),
        Err(failure(ErrorKind::DigitsMissing, ".5"))
    );
}

#[test]
fn float_values_are_exact() {
    assert_eq!(parse_float("0.0"), Ok(("", float(0.0))));
    assert_eq!(parse_float("-0.0"), Ok(("", float(-0.0))));
    assert_eq!(parse_float("1.5"), Ok(("", float(1.5))));
    assert_eq!(parse_float("-10.99 ...rest"), Ok((" ...rest", float(-10.99))));
    assert_eq!(parse_float("0.1"), Ok(("", float(0.1))));
    assert_eq!(parse_float("16777217.0"), Ok(("", float(16777217.0))));
    assert_eq!(
        parse_float("340282350000000000000000000000000000000.0"),
        Ok(("", float(f32::MAX)))
    );
    assert_eq!(parse_float("00012.500"), Ok(("", float(12.5))));
    match parse_float("25.5") {
        Ok((_, JsonValue::Number(NumberType::Float(bits)))) => {
            assert_eq!(bits, 0x41cc0000);
            assert_eq!(f32::from_bits(bits), 25.5);
        }
        other => panic!("{:?}", other),
    }
}

#[test]
fn float_literal_ends_behind_the_fraction() {
    assert_eq!(parse_float("1.5e3"), Ok(("e3", float(1.5))));
    assert_eq!(parse_float("1.5.7"), Ok((".7", float(1.5))));
    assert_eq!(parse_float("1.5,"), Ok((",", float(1.5))));
}

#[test]
fn literals_are_matched_exactly() {
    assert_eq!(
        parse_bool("True"),
        Err(failure(ErrorKind::LiteralMissing, "True"))
    );
    assert_eq!(
        parse_bool("tru"),
        Err(failure(ErrorKind::LiteralMissing, "tru"))
    );
    assert_eq!(
        parse_bool("falsy"),
        Err(failure(ErrorKind::LiteralMissing, "falsy"))
    );
    assert_eq!(parse_bool("falsetto"), Ok(("tto", JsonValue::Boolean(false))));
    assert_eq!(parse_bool(""), Err(failure(ErrorKind::LiteralMissing, "")));
    assert_eq!(parse_null(""), Err(failure(ErrorKind::LiteralMissing, "")));
    assert_eq!(
        parse_null(" null"),
        Err(failure(ErrorKind::LiteralMissing, " null"))
    );
}

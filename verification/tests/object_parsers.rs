use json_parser::object_parsers::{
    parse_array, parse_array_values, parse_key_value, parse_object, parse_value,
};
use json_parser::parser::JsonParser;
use json_parser::value::{ErrorKind, JsonObject, JsonValue, NumberType, ParseError};

fn float(number: f32) -> JsonValue {
    JsonValue::Number(NumberType::Float(number.to_bits()))
}

fn integer(number: i32) -> JsonValue {
    JsonValue::Number(NumberType::Integer(number))
}

fn string(text: &str) -> JsonValue {
    JsonValue::String(text.to_string())
}

fn failure(kind: ErrorKind, input: &str) -> ParseError<'_> {
    ParseError { kind, input }
}

#[test]
fn test_parse_array_values() {
    let values = "\"hello\", -100.10, 10, 25.5, false, \"world\" ...other key values";

    assert_eq!(
        parse_array_values(values),
        (
            " ...other key values",
            vec![
                string("hello"),
                float(-100.10),
                integer(10),
                float(25.5),
                JsonValue::Boolean(false),
                string("world"),
            ]
        )
    )
}

#[test]
fn test_parse_array() {
    let array = "[\"hello\", -100.10, 10, 25.5, false, \"world\"]";

    assert_eq!(
        parse_array(array),
        Ok((
            "",
            JsonValue::Array(vec![
                string("hello"),
                float(-100.10),
                integer(10),
                float(25.5),
                JsonValue::Boolean(false),
                string("world"),
            ])
        ))
    );

    let invalid_array = "[\"non closed\", 123, \"array\"";

    assert_eq!(
        parse_array(invalid_array),
        Err(failure(ErrorKind::StructureUnterminated, ""))
    )
}

#[test]
fn test_parse_object() {
    let object =
        "{\n\"name\": \"Alfredo Arvelaez\",\n\"age\": 22,\n\"temps\": [15.5, -10, 25.5]\n}";

    let mut expected = JsonObject::new();

    expected.insert("name".to_string(), string("Alfredo Arvelaez"));
    expected.insert("age".to_string(), integer(22));
    expected.insert(
        "temps".to_string(),
        JsonValue::Array(vec![float(15.5), integer(-10), float(25.5)]),
    );

    assert_eq!(parse_object(object), Ok(("", JsonValue::Object(expected))));

    let empty_object = "{}";

    assert_eq!(
        parse_object(empty_object),
        Ok(("", JsonValue::Object(JsonObject::new())))
    )
}

#[test]
fn object_parsers_test_parse_value() {
    // Parsing `string` value
    assert_eq!(
        parse_value("\"hello world\" ...rest"),
        Ok((" ...rest", string("hello world")))
    );

    // Parsing `integer` value
    assert_eq!(parse_value("115 ...rest"), Ok((" ...rest", integer(115))));

    // Parsing `float` value
    assert_eq!(parse_value("-10.99 ...rest"), Ok((" ...rest", float(-10.99))));

    // Parsing `boolean` value
    assert_eq!(
        parse_value("true ...rest"),
        Ok((" ...rest", JsonValue::Boolean(true)))
    );

    // Parsing `array` value
    assert_eq!(
        parse_value("[\"array\", 123, -10.5, false]"),
        Ok((
            "",
            JsonValue::Array(vec![
                string("array"),
                integer(123),
                float(-10.5),
                JsonValue::Boolean(false),
            ])
        ))
    );

    // Throwing error when try to parse invalid value
    assert_eq!(
        parse_value("invalid value"),
        Err(failure(ErrorKind::NoAlternativeMatched, "invalid value"))
    )
}

#[test]
fn object_parsers_test_parse_key_value() {
    assert_eq!(
        parse_key_value("\"name\": \"Alfredo\""),
        Ok(("", ("name".to_string(), string("Alfredo"))))
    );

    assert_eq!(
        parse_key_value("\"temp\": -99\n ...other key value pairs"),
        Ok((
            "\n ...other key value pairs",
            ("temp".to_string(), integer(-99))
        ))
    );

    assert_eq!(
        parse_key_value("\"price\": 25.25\n ...other key value pairs"),
        Ok((
            "\n ...other key value pairs",
            ("price".to_string(), float(25.25))
        ))
    );

    assert_eq!(
        parse_key_value("\"isActive\": true\n ...other key value pairs"),
        Ok((
            "\n ...other key value pairs",
            ("isActive".to_string(), JsonValue::Boolean(true))
        ))
    );

    assert_eq!(
        parse_key_value("\"elements\": [\"array\", 123, -10.5, false]"),
        Ok((
            "",
            (
                "elements".to_string(),
                JsonValue::Array(vec![
                    string("array"),
                    integer(123),
                    float(-10.5),
                    JsonValue::Boolean(false),
                ])
            )
        ))
    );

    // Throwing error when try to parse invalid value
    assert_eq!(
        parse_value("invalid value"),
        Err(failure(ErrorKind::NoAlternativeMatched, "invalid value"))
    );

    assert_eq!(
        parse_key_value("not a key pair value"),
        Err(failure(ErrorKind::DelimiterMissing, "not a key pair value"))
    )
}

#[test]
fn value_tries_float_before_integer() {
    assert_eq!(parse_value("12.5"), Ok(("", float(12.5))));
    assert_eq!(parse_value("12"), Ok(("", integer(12))));
    assert_eq!(parse_value("12.x"), Ok((".x", integer(12))));
    assert_eq!(parse_value("-7,"), Ok((",", integer(-7))));
}

#[test]
fn value_reads_each_kind() {
    assert_eq!(parse_value("null"), Ok(("", JsonValue::Null)));
    assert_eq!(parse_value("nullx"), Ok(("x", JsonValue::Null)));
    assert_eq!(parse_value("false,"), Ok((",", JsonValue::Boolean(false))));
    assert_eq!(parse_value("[]"), Ok(("", JsonValue::Array(vec![]))));
    assert_eq!(
        parse_value("{} tail"),
        Ok((" tail", JsonValue::Object(JsonObject::new())))
    );
    let mut person = JsonObject::new();
    person.insert("name".to_string(), string("Alfredo"));
    person.insert("age".to_string(), integer(25));
    assert_eq!(
        parse_value("{\"name\": \"Alfredo\", \"age\": 25}"),
        Ok(("", JsonValue::Object(person)))
    );
}

#[test]
fn value_fails_at_the_text_it_was_given() {
    assert_eq!(
        parse_value(""),
        Err(failure(ErrorKind::NoAlternativeMatched, ""))
    );
    assert_eq!(
        parse_value(" 1"),
        Err(failure(ErrorKind::NoAlternativeMatched, " 1"))
    );
    assert_eq!(
        parse_value("[1, 2"),
        Err(failure(ErrorKind::NoAlternativeMatched, "[1, 2"))
    );
    assert_eq!(
        parse_value("{\"a\": 1"),
        Err(failure(ErrorKind::NoAlternativeMatched, "{\"a\": 1"))
    );
    assert_eq!(
        parse_value("2147483648"),
        Err(failure(ErrorKind::NoAlternativeMatched, "2147483648"))
    );
    assert_eq!(
        parse_value("\"open"),
        Err(failure(ErrorKind::NoAlternativeMatched, "\"open"))
    );
}

#[test]
fn key_value_failures() {
    assert_eq!(
        parse_key_value("\"key\" 1"),
        Err(failure(ErrorKind::DelimiterMissing, " 1"))
    );
    assert_eq!(
        parse_key_value("\"key\""),
        Err(failure(ErrorKind::DelimiterMissing, ""))
    );
    assert_eq!(
        parse_key_value("\"key\": ?"),
        Err(failure(ErrorKind::NoAlternativeMatched, "?"))
    );
    assert_eq!(
        parse_key_value("\"key"),
        Err(failure(ErrorKind::DelimiterMissing, "key"))
    );
    assert_eq!(
        parse_key_value("12: 1"),
        Err(failure(ErrorKind::DelimiterMissing, "12: 1"))
    );
}

#[test]
fn key_value_skips_whitespace_behind_the_colon_only() {
    assert_eq!(
        parse_key_value("\"k\":1"),
        Ok(("", ("k".to_string(), integer(1))))
    );
    assert_eq!(
        parse_key_value("\"k\": \n\n  1"),
        Ok(("", ("k".to_string(), integer(1))))
    );
    assert_eq!(
        parse_key_value("\"k\" : 1"),
        Err(failure(ErrorKind::DelimiterMissing, " : 1"))
    );
}

#[test]
fn array_values_may_be_none() {
    assert_eq!(parse_array_values(""), ("", vec![]));
    assert_eq!(parse_array_values("]"), ("]", vec![]));
    assert_eq!(parse_array_values("?, 1"), ("?, 1", vec![]));
}

#[test]
fn array_values_stop_before_a_comma_that_no_value_follows() {
    assert_eq!(parse_array_values("1, 2, ]"), (", ]", vec![integer(1), integer(2)]));
    assert_eq!(parse_array_values("1,"), (",", vec![integer(1)]));
    assert_eq!(parse_array_values("1,2,3"), ("", vec![integer(1), integer(2), integer(3)]));
    assert_eq!(parse_array_values("1 , 2"), (" , 2", vec![integer(1)]));
}

#[test]
fn empty_array_and_nesting() {
    assert_eq!(parse_array("[]"), Ok(("", JsonValue::Array(vec![]))));
    assert_eq!(parse_array("[ \n ]x"), Ok(("x", JsonValue::Array(vec![]))));
    assert_eq!(
        parse_array("[[], [[1]], null]"),
        Ok((
            "",
            JsonValue::Array(vec![
                JsonValue::Array(vec![]),
                JsonValue::Array(vec![JsonValue::Array(vec![integer(1)])]),
                JsonValue::Null,
            ])
        ))
    );
}

#[test]
fn array_failures() {
    assert_eq!(
        parse_array("1, 2]"),
        Err(failure(ErrorKind::DelimiterMissing, "1, 2]"))
    );
    assert_eq!(parse_array(""), Err(failure(ErrorKind::DelimiterMissing, "")));
    assert_eq!(
        parse_array("[1, 2, ]"),
        Err(failure(ErrorKind::StructureUnterminated, ", ]"))
    );
    assert_eq!(
        parse_array("[1 2]"),
        Err(failure(ErrorKind::StructureUnterminated, "2]"))
    );
    assert_eq!(
        parse_array("[1 , 2]"),
        Err(failure(ErrorKind::StructureUnterminated, ", 2]"))
    );
    assert_eq!(
        parse_array("["),
        Err(failure(ErrorKind::StructureUnterminated, ""))
    );
}

#[test]
fn parse_object_empty() {
    let (rest, value) = parse_object("{}").unwrap();
    assert_eq!(rest, "");
    match value {
        JsonValue::Object(object) => {
            assert_eq!(object.len(), 0);
            assert!(object.get("a").is_none());
        }
        other => panic!("{:?}", other),
    }
}

#[test]
fn parse_object_last_key_wins() {
    let (rest, value) = parse_object("{\"a\":1,\"a\":2}").unwrap();
    assert_eq!(rest, "");
    let mut expected = JsonObject::new();
    expected.insert("a".to_string(), integer(2));
    assert_eq!(value, JsonValue::Object(expected));
    match value {
        JsonValue::Object(object) => {
            assert_eq!(object.len(), 1);
            assert_eq!(object.get("a"), Some(&integer(2)));
        }
        other => panic!("{:?}", other),
    }
}

#[test]
fn object_failures() {
    assert_eq!(
        parse_object("[1]"),
        Err(failure(ErrorKind::DelimiterMissing, "[1]"))
    );
    assert_eq!(
        parse_object("{\"a\": 1"),
        Err(failure(ErrorKind::StructureUnterminated, ""))
    );
    assert_eq!(
        parse_object("{\"a\": 1,}"),
        Err(failure(ErrorKind::StructureUnterminated, ",}"))
    );
    assert_eq!(
        parse_object("{\"a\" 1}"),
        Err(failure(ErrorKind::StructureUnterminated, "\"a\" 1}"))
    );
    assert_eq!(
        parse_object("{a: 1}"),
        Err(failure(ErrorKind::StructureUnterminated, "a: 1}"))
    );
}

#[test]
fn object_insert_get_len() {
    let mut object = JsonObject::new();
    assert_eq!(object.len(), 0);
    object.insert("x".to_string(), integer(1));
    object.insert("y".to_string(), integer(2));
    object.insert("x".to_string(), JsonValue::Null);
    assert_eq!(object.len(), 2);
    assert_eq!(object.get("x"), Some(&JsonValue::Null));
    assert_eq!(object.get("y"), Some(&integer(2)));
    assert_eq!(object.get("z"), None);
    assert_eq!(object.get(""), None);
    let members = object.entries();
    assert_eq!(members.len(), 2);
    assert_eq!(members[0], ("x".to_string(), JsonValue::Null));
    assert_eq!(members[1], ("y".to_string(), integer(2)));
}

#[test]
fn whitespace_around_delimiters_does_not_change_the_value() {
    let dense = "{\"a\":[1,2.5,{\"b\":null}],\"c\":\"x y\"}";
    let airy = "{ \n \"a\": \n [ 1,  2.5,\n{  \"b\":   null\n}\n ],\n\n\"c\":\"x y\"  \n}";
    let (dense_rest, dense_value) = parse_value(dense).unwrap();
    let (airy_rest, airy_value) = parse_value(airy).unwrap();
    assert_eq!(dense_rest, "");
    assert_eq!(airy_rest, "");
    assert_eq!(dense_value, airy_value);

    let mut inner = JsonObject::new();
    inner.insert("b".to_string(), JsonValue::Null);
    let mut expected = JsonObject::new();
    expected.insert(
        "a".to_string(),
        JsonValue::Array(vec![integer(1), float(2.5), JsonValue::Object(inner)]),
    );
    expected.insert("c".to_string(), string("x y"));
    assert_eq!(dense_value, JsonValue::Object(expected));
}

#[test]
fn whitespace_is_not_skipped_before_a_comma_or_a_colon() {
    assert!(parse_value("[1 ,2]").is_err());
    assert!(parse_value("{\"a\" :1}").is_err());
    assert!(parse_value("{\"a\":1 ,\"b\":2}").is_err());
}

#[test]
fn reading_on_from_the_rest_never_reads_again() {
    let document = "[1, 2]{\"a\": true}\"tail\"12.5null";
    let mut rest = document;
    let mut values = Vec::new();
    while let Ok((behind, value)) = parse_value(rest) {
        assert!(behind.len() < rest.len());
        assert!(rest.ends_with(behind));
        values.push(value);
        rest = behind;
    }
    assert_eq!(rest, "");
    let mut object = JsonObject::new();
    object.insert("a".to_string(), JsonValue::Boolean(true));
    assert_eq!(
        values,
        vec![
            JsonValue::Array(vec![integer(1), integer(2)]),
            JsonValue::Object(object),
            string("tail"),
            float(12.5),
            JsonValue::Null,
        ]
    );
}

#[test]
fn parser_reads_the_first_value_and_returns_the_rest() {
    assert_eq!(
        JsonParser::new().parse("{\"a\": [true]} and more"),
        parse_value("{\"a\": [true]} and more")
    );
    let (rest, value) = JsonParser::new().parse("[null]\n").unwrap();
    assert_eq!(rest, "\n");
    assert_eq!(value, JsonValue::Array(vec![JsonValue::Null]));
    assert_eq!(
        JsonParser::new().parse("?"),
        Err(failure(ErrorKind::NoAlternativeMatched, "?"))
    );
}

#[test]
fn deep_nesting_within_reason() {
    let depth = 200;
    let text = format!("{}{}", "[".repeat(depth), "]".repeat(depth));
    let (rest, mut value) = parse_value(&text).unwrap();
    assert_eq!(rest, "");
    for _ in 1..depth {
        value = match value {
            JsonValue::Array(mut items) => {
                assert_eq!(items.len(), 1);
                items.pop().unwrap()
            }
            other => panic!("{:?}", other),
        };
    }
    assert_eq!(value, JsonValue::Array(vec![]));
}

#[test]
fn equality_of_objects_ignores_the_order_of_members() {
    let (_, one) = parse_value("{\"a\": 1, \"b\": [true, {\"c\": null, \"d\": 2.5}]}").unwrap();
    let (_, other) = parse_value("{\"b\": [true, {\"d\": 2.5, \"c\": null}], \"a\": 1}").unwrap();
    assert_eq!(one, other);
    assert!(one.same_as(&other));

    let (_, fewer) = parse_value("{\"a\": 1}").unwrap();
    assert_ne!(one, fewer);
    assert_ne!(fewer, one);
    let (_, changed) = parse_value("{\"a\": 1, \"b\": [true, {\"c\": null, \"d\": 2.0}]}").unwrap();
    assert_ne!(one, changed);
    let (_, renamed) = parse_value("{\"a\": 1, \"x\": [true, {\"c\": null, \"d\": 2.5}]}").unwrap();
    assert_ne!(one, renamed);
}

#[test]
fn equality_of_arrays_follows_their_order() {
    assert_eq!(parse_value("[1,2]").unwrap().1, parse_value("[1, 2]").unwrap().1);
    assert_ne!(parse_value("[1,2]").unwrap().1, parse_value("[2,1]").unwrap().1);
    assert_ne!(parse_value("[1,2]").unwrap().1, parse_value("[1]").unwrap().1);
    assert_ne!(parse_value("[]").unwrap().1, parse_value("{}").unwrap().1);
    assert_ne!(integer(1), float(1.0));
    assert_ne!(string("1"), integer(1));
    assert_ne!(JsonValue::Null, JsonValue::Boolean(false));
    assert_ne!(float(0.0), float(-0.0));
}

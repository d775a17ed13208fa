use json_parser::elements::{build_element, Element, ElementKind, NumberKind};
use json_parser::object_parsers::{parse_key_value, parse_value};
use json_parser::value::{ErrorKind, JsonObject, ParseError};

fn float(number: f32) -> ElementKind {
    ElementKind::Number(NumberKind::Float(number.to_bits()))
}

fn integer(number: i32) -> ElementKind {
    ElementKind::Number(NumberKind::Integer(number))
}

fn string(text: &str) -> ElementKind {
    ElementKind::String(text.to_string())
}

#[test]
fn test_build_element() {
    assert_eq!(
        build_element("\"name\": \"Alfredo\""),
        Ok(("", Element::new("name".to_string(), string("Alfredo"))))
    );

    assert_eq!(
        build_element("\"amount\": 5000"),
        Ok(("", Element::new("amount".to_string(), integer(5000))))
    );

    assert_eq!(
        build_element("\"temp\": -17.8"),
        Ok(("", Element::new("temp".to_string(), float(-17.8))))
    );

    assert_eq!(
        build_element("\"isActive\": false"),
        Ok((
            "",
            Element::new("isActive".to_string(), ElementKind::Boolean(false))
        ))
    );

    assert_eq!(
        build_element("\"elements\": [\"array\", 123, -10.5, false]"),
        Ok((
            "",
            Element::new(
                "elements".to_string(),
                ElementKind::Array(vec![
                    string("array"),
                    integer(123),
                    float(-10.5),
                    ElementKind::Boolean(false),
                ])
            )
        ))
    )
}

#[test]
fn element_parsers_test_parse_value() {
    // Parsing `string` value
    assert_eq!(
        parse_value("\"hello world\" ...rest"),
        Ok((" ...rest", string("hello world")))
    );

    // Parsing `integer` value
    assert_eq!(parse_value("115 ...rest"), Ok((" ...rest", integer(115))));

    // Parsing `float` value
    assert_eq!(parse_value("-10.99 ...rest"), Ok((" ...rest", float(-10.99))));

    // Parsing `boolean` value
    assert_eq!(
        parse_value("true ...rest"),
        Ok((" ...rest", ElementKind::Boolean(true)))
    );

    // Parsing `array` value
    assert_eq!(
        parse_value("[\"array\", 123, -10.5, false]"),
        Ok((
            "",
            ElementKind::Array(vec![
                string("array"),
                integer(123),
                float(-10.5),
                ElementKind::Boolean(false),
            ])
        ))
    );

    // Parsin `object` value
    let mut object = JsonObject::new();
    object.insert("name".to_string(), string("Alfredo"));
    object.insert("age".to_string(), integer(25));
    assert_eq!(
        parse_value("{\"name\": \"Alfredo\", \"age\": 25}"),
        Ok(("", ElementKind::Object(object)))
    );

    // Throwing error when try to parse invalid value
    assert_eq!(
        parse_value("invalid value"),
        Err(ParseError {
            kind: ErrorKind::NoAlternativeMatched,
            input: "invalid value"
        })
    )
}

#[test]
fn element_parsers_test_parse_key_value() {
    assert_eq!(
        parse_key_value("\"name\": \"Alfredo\""),
        Ok(("", ("name".to_string(), string("Alfredo"))))
    );

    assert_eq!(
        parse_key_value("\"temp\": -99\n ...other key value pairs"),
        Ok((
            "\n ...other key value pairs",
            ("temp".to_string(), integer(-99))
        ))
    );

    assert_eq!(
        parse_key_value("\"price\": 25.25\n ...other key value pairs"),
        Ok((
            "\n ...other key value pairs",
            ("price".to_string(), float(25.25))
        ))
    );

    assert_eq!(
        parse_key_value("\"isActive\": true\n ...other key value pairs"),
        Ok((
            "\n ...other key value pairs",
            ("isActive".to_string(), ElementKind::Boolean(true))
        ))
    );

    assert_eq!(
        parse_key_value("\"elements\": [\"array\", 123, -10.5, false]"),
        Ok((
            "",
            (
                "elements".to_string(),
                ElementKind::Array(vec![
                    string("array"),
                    integer(123),
                    float(-10.5),
                    ElementKind::Boolean(false),
                ])
            )
        ))
    );

    // Throwing error when try to parse invalid value
    assert_eq!(
        parse_value("invalid value"),
        Err(ParseError {
            kind: ErrorKind::NoAlternativeMatched,
            input: "invalid value"
        })
    );

    assert_eq!(
        parse_key_value("not a key pair value"),
        Err(ParseError {
            kind: ErrorKind::DelimiterMissing,
            input: "not a key pair value"
        })
    )
}

#[test]
fn element_gives_back_its_key_and_kind() {
    let (rest, element) = build_element("\"k\": [1]tail").unwrap();
    assert_eq!(rest, "tail");
    assert_eq!(element.key(), "k");
    assert_eq!(element.kind(), &ElementKind::Array(vec![integer(1)]));
    assert_eq!(
        build_element("k: 1"),
        Err(ParseError {
            kind: ErrorKind::DelimiterMissing,
            input: "k: 1"
        })
    );
}

use arjp::{parse_json, JsonParser, JsonValue};

fn as_f64(v: &JsonValue) -> f64 {
    match v {
        JsonValue::Number(t) => t.parse::<f64>().unwrap(),
        _ => panic!("not a number"),
    }
}

#[test]
fn integration_test_parse_null() {
    let mut parser = JsonParser::new("null");
    assert_eq!(parser.parse().unwrap(), JsonValue::Null);
    assert_eq!(parse_json("null").unwrap(), JsonValue::Null);
}

#[test]
fn integration_test_parse_boolean() {
    let mut parser_true = JsonParser::new("true");
    assert_eq!(parser_true.parse().unwrap(), JsonValue::Boolean(true));
    assert_eq!(parse_json("true").unwrap(), JsonValue::Boolean(true));

    let mut parser_false = JsonParser::new("false");
    assert_eq!(parser_false.parse().unwrap(), JsonValue::Boolean(false));
    assert_eq!(parse_json("false").unwrap(), JsonValue::Boolean(false));
}

#[test]
fn integration_test_parse_string() {
    let mut parser = JsonParser::new("\"hello\"");
    assert_eq!(
        parser.parse().unwrap(),
        JsonValue::String("hello".to_string())
    );
    assert_eq!(
        parse_json("\"hello\"").unwrap(),
        JsonValue::String("hello".to_string())
    );

    let mut parser_escaped = JsonParser::new("\"hello \\\"world\\\"\"");
    assert_eq!(
        parser_escaped.parse().unwrap(),
        JsonValue::String("hello \"world\"".to_string())
    );
    assert_eq!(
        parse_json("\"hello \\\"world\\\"\"").unwrap(),
        JsonValue::String("hello \"world\"".to_string())
    );

    let mut parser_unicode = JsonParser::new("\"unicode \\u263A\"");
    assert_eq!(
        parser_unicode.parse().unwrap(),
        JsonValue::String("unicode ☺".to_string())
    );
    assert_eq!(
        parse_json("\"unicode \\u263A\"").unwrap(),
        JsonValue::String("unicode ☺".to_string())
    );
}

#[test]
fn integration_test_parse_number() {
    let mut parser_int = JsonParser::new("123");
    assert_eq!(as_f64(&parser_int.parse().unwrap()), 123.0);
    assert_eq!(as_f64(&parse_json("123").unwrap()), 123.0);

    let mut parser_float = JsonParser::new("-456.789");
    assert_eq!(as_f64(&parser_float.parse().unwrap()), -456.789);
    assert_eq!(as_f64(&parse_json("-456.789").unwrap()), -456.789);

    let mut parser_exp = JsonParser::new("1.23e-4");
    assert_eq!(as_f64(&parser_exp.parse().unwrap()), 1.23e-4);
    assert_eq!(as_f64(&parse_json("1.23e-4").unwrap()), 1.23e-4);
}

#[test]
fn integration_test_parse_array() {
    let mut parser_empty = JsonParser::new("[]");
    assert_eq!(parser_empty.parse().unwrap(), JsonValue::Array(vec![]));
    assert_eq!(parse_json("[]").unwrap(), JsonValue::Array(vec![]));

    fn expected_array() -> Vec<JsonValue> {
        vec![
            JsonValue::Number("1".to_string()),
            JsonValue::String("test".to_string()),
            JsonValue::Boolean(true),
        ]
    }
    let mut parser = JsonParser::new("[1, \"test\", true]");
    assert_eq!(parser.parse().unwrap(), JsonValue::Array(expected_array()));
    assert_eq!(
        parse_json("[1, \"test\", true]").unwrap(),
        JsonValue::Array(expected_array())
    );
}

#[test]
fn integration_test_parse_object() {
    let mut parser_empty = JsonParser::new("{}");
    assert_eq!(parser_empty.parse().unwrap(), JsonValue::Object(vec![]));
    assert_eq!(parse_json("{}").unwrap(), JsonValue::Object(vec![]));

    let mut parser = JsonParser::new("{\"name\": \"John\", \"age\": 30}");
    let parsed = parser.parse().unwrap();
    assert_eq!(
        parsed.get("name"),
        Some(&JsonValue::String("John".to_string()))
    );
    assert_eq!(as_f64(parsed.get("age").unwrap()), 30.0);

    let expected = vec![
        ("name".to_string(), JsonValue::String("John".to_string())),
        ("age".to_string(), JsonValue::Number("30".to_string())),
    ];
    assert_eq!(
        parse_json("{\"name\": \"John\", \"age\": 30}").unwrap(),
        JsonValue::Object(expected)
    );
}

#[test]
fn test_parse_errors() {
    let mut parser_unterminated = JsonParser::new("\"unterminated");
    assert!(parser_unterminated.parse().is_err());
    assert!(parse_json("\"unterminated").is_err());

    let mut parser_invalid = JsonParser::new("invalid");
    assert!(parser_invalid.parse().is_err());
    assert!(parse_json("invalid").is_err());

    let mut parser_unterminated_array = JsonParser::new("[1,");
    assert!(parser_unterminated_array.parse().is_err());
    assert!(parse_json("[1,").is_err());
}

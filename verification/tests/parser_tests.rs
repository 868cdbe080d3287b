use arjp::{JsonParser, JsonValue};

fn as_f64(v: &JsonValue) -> f64 {
    match v {
        JsonValue::Number(t) => t.parse::<f64>().unwrap(),
        _ => panic!("not a number"),
    }
}

#[test]
fn parser_test_parse_null() {
    let mut parser = JsonParser::new("null");
    assert_eq!(parser.parse_null().unwrap(), JsonValue::Null);
}

#[test]
fn parser_test_parse_boolean() {
    let mut parser_true = JsonParser::new("true");
    assert_eq!(
        parser_true.parse_boolean().unwrap(),
        JsonValue::Boolean(true)
    );

    let mut parser_false = JsonParser::new("false");
    assert_eq!(
        parser_false.parse_boolean().unwrap(),
        JsonValue::Boolean(false)
    );
}

#[test]
fn parser_test_parse_string() {
    let mut parser = JsonParser::new("\"hello\"");
    assert_eq!(
        parser.parse_string().unwrap(),
        JsonValue::String("hello".to_string())
    );

    let mut parser_escaped = JsonParser::new("\"hello \\\"world\\\"\"");
    assert_eq!(
        parser_escaped.parse_string().unwrap(),
        JsonValue::String("hello \"world\"".to_string())
    );

    let mut parser_unicode = JsonParser::new("\"\\u263A\"");
    assert_eq!(
        parser_unicode.parse_string().unwrap(),
        JsonValue::String("☺".to_string())
    );
}

#[test]
fn parser_test_parse_number() {
    let mut parser_int = JsonParser::new("123");
    let n_int = parser_int.parse_number().unwrap();
    assert_eq!(n_int, JsonValue::Number("123".to_string()));
    assert_eq!(as_f64(&n_int), 123.0);

    let mut parser_float = JsonParser::new("-456.789");
    let n_float = parser_float.parse_number().unwrap();
    assert_eq!(n_float, JsonValue::Number("-456.789".to_string()));
    assert_eq!(as_f64(&n_float), -456.789);

    let mut parser_exp = JsonParser::new("1.23e-4");
    let n_exp = parser_exp.parse_number().unwrap();
    assert_eq!(n_exp, JsonValue::Number("1.23e-4".to_string()));
    assert_eq!(as_f64(&n_exp), 1.23e-4);
}

#[test]
fn parser_test_parse_array() {
    let mut parser_empty = JsonParser::new("[]");
    assert_eq!(
        parser_empty.parse_array().unwrap(),
        JsonValue::Array(vec![])
    );

    let mut parser = JsonParser::new("[1, \"test\"]");
    assert_eq!(
        parser.parse_array().unwrap(),
        JsonValue::Array(vec![
            JsonValue::Number("1".to_string()),
            JsonValue::String("test".to_string())
        ])
    );
}

#[test]
fn parser_test_parse_object() {
    let mut parser_empty = JsonParser::new("{}");
    assert_eq!(parser_empty.parse_object().unwrap(), JsonValue::Object(vec![]));

    let mut parser = JsonParser::new("{\"key\": \"value\"}");
    let expected = vec![("key".to_string(), JsonValue::String("value".to_string()))];
    assert_eq!(parser.parse_object().unwrap(), JsonValue::Object(expected));
}

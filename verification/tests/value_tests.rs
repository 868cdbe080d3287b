use arjp::JsonValue;

#[test]
fn test_null() {
    let value = JsonValue::Null;
    assert_eq!(value, JsonValue::Null);
}

#[test]
fn test_boolean() {
    let true_value = JsonValue::Boolean(true);
    let false_value = JsonValue::Boolean(false);
    assert_eq!(true_value, JsonValue::Boolean(true));
    assert_eq!(false_value, JsonValue::Boolean(false));
    assert_ne!(true_value, false_value);
}

#[test]
fn test_number() {
    let value = JsonValue::Number("123.45".to_string());
    assert_eq!(value, JsonValue::Number("123.45".to_string()));
}

#[test]
fn test_string() {
    let value = JsonValue::String("test".to_string());
    assert_eq!(value, JsonValue::String("test".to_string()));
}

#[test]
fn test_array() {
    let value = JsonValue::Array(vec![
        JsonValue::Number("1.0".to_string()),
        JsonValue::Boolean(true),
    ]);
    assert_eq!(
        value,
        JsonValue::Array(vec![
            JsonValue::Number("1.0".to_string()),
            JsonValue::Boolean(true)
        ])
    );
}

#[test]
fn test_object() {
    let value = JsonValue::Object(vec![(
        "key".to_string(),
        JsonValue::String("value".to_string()),
    )]);
    let same = JsonValue::Object(vec![(
        "key".to_string(),
        JsonValue::String("value".to_string()),
    )]);
    assert_eq!(value, same);
}

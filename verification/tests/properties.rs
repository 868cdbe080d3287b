//! Tests for the stated properties of the parser: round trips through
//! a serializer fixture, whitespace framing, trailing-content
//! rejection, duplicate-key overwriting, and one input for each
//! failure condition with its exact message.

use arjp::{parse_json, JsonValue};

/// Test fixture: serializes a value tree back to JSON text.
fn serialize(v: &JsonValue) -> String {
    match v {
        JsonValue::Null => "null".to_string(),
        JsonValue::Boolean(true) => "true".to_string(),
        JsonValue::Boolean(false) => "false".to_string(),
        JsonValue::Number(t) => t.clone(),
        JsonValue::String(s) => {
            let mut out = String::from("\"");
            for c in s.chars() {
                match c {
                    '"' => out.push_str("\\\""),
                    '\\' => out.push_str("\\\\"),
                    '\n' => out.push_str("\\n"),
                    '\r' => out.push_str("\\r"),
                    '\t' => out.push_str("\\t"),
                    '\u{0008}' => out.push_str("\\b"),
                    '\u{000C}' => out.push_str("\\f"),
                    c if (c as u32) < 0x20 => out.push_str(&format!("\\u{:04X}", c as u32)),
                    c => out.push(c),
                }
            }
            out.push('"');
            out
        }
        JsonValue::Array(items) => {
            let mut out = String::from("[");
            for (i, item) in items.iter().enumerate() {
                if i > 0 {
                    out.push(',');
                }
                out.push_str(&serialize(item));
            }
            out.push(']');
            out
        }
        JsonValue::Object(pairs) => {
            let mut out = String::from("{");
            for (i, (k, v)) in pairs.iter().enumerate() {
                if i > 0 {
                    out.push(',');
                }
                out.push_str(&serialize(&JsonValue::String(k.clone())));
                out.push(':');
                out.push_str(&serialize(v));
            }
            out.push('}');
            out
        }
    }
}

fn assert_round_trips(text: &str) {
    let tree = parse_json(text).unwrap();
    let serialized = serialize(&tree);
    let reparsed = parse_json(&serialized).unwrap();
    assert_eq!(tree, reparsed);
}

#[test]
fn test_round_trip_scalars() {
    assert_round_trips("null");
    assert_round_trips("true");
    assert_round_trips("false");
    assert_round_trips("0");
    assert_round_trips("-456.789");
    assert_round_trips("1.23e-4");
    assert_round_trips("\"hello \\\"world\\\"\"");
    assert_round_trips("\"tab\\tnewline\\nsmile\\u263A\"");
}

#[test]
fn test_round_trip_nested() {
    assert_round_trips("{\"name\": \"John\", \"age\": 30, \"tags\": [1, [], {}, {\"a\": null}]}");
    assert_round_trips("[[[[1]]], {\"k\": [true, false, \"\\u0007\"]}]");
}

#[test]
fn test_whitespace_framing() {
    let plain = parse_json("{\"a\": [1, 2]}").unwrap();
    let framed = parse_json(" \t\r\n {\"a\": [1, 2]} \n\t ").unwrap();
    assert_eq!(plain, framed);
    assert_eq!(
        parse_json("\t\nnull\r ").unwrap(),
        parse_json("null").unwrap()
    );
}

#[test]
fn test_trailing_content_rejected() {
    let r = parse_json("null null");
    assert_eq!(
        r.unwrap_err().message(),
        "Extra characters after JSON value"
    );
}

#[test]
fn test_object_overwrite() {
    let v = parse_json("{\"a\":1,\"a\":2}").unwrap();
    assert_eq!(v.get("a"), Some(&JsonValue::Number("2".to_string())));
    match &v {
        JsonValue::Object(pairs) => assert_eq!(pairs.len(), 1),
        _ => panic!("not an object"),
    }
}

#[test]
fn test_corrupted_inputs_fail_cleanly() {
    for text in [
        "ull", "nll", "nul", "tue", "fals", "\"abc", "[1 2]", "[1,]2", "{\"a\" 1}", "{", "}",
        "1..2", "--1", "+1", "1e+", "[", "]", ",", ":", "\u{1F600}",
    ] {
        assert!(parse_json(text).is_err(), "expected failure on {:?}", text);
    }
}

#[test]
fn test_error_messages() {
    let cases: Vec<(&str, &str)> = vec![
        ("null null", "Extra characters after JSON value"),
        ("invalid", "Unexpected character"),
        ("", "Unexpected end of input"),
        ("   ", "Unexpected end of input"),
        ("[1,", "Unexpected end of input"),
        ("nul", "Invalid null value"),
        ("tru", "Invalid boolean value"),
        ("falsy", "Invalid boolean value"),
        ("\"unterminated", "Unterminated string"),
        ("\"end\\", "Unterminated string after escape"),
        ("\"\\u26", "Incomplete unicode escape sequence"),
        ("\"\\u26G8\"", "Invalid unicode escape sequence"),
        ("\"\\uD800\"", "Invalid unicode code point: 55296"),
        ("\"\\x\"", "Invalid escape sequence: \\x"),
        ("-", "Number must contain at least one digit"),
        ("1.", "Decimal point must be followed by at least one digit"),
        ("1e", "Exponent must be followed by at least one digit"),
        ("2E+", "Exponent must be followed by at least one digit"),
        ("[1 2]", "Expected comma or closing bracket, got '2'"),
        ("[1", "Unterminated array"),
        ("{1:2}", "Object keys must be strings"),
        ("{\"a\" 1}", "Expected colon after key in object"),
        ("{\"a\":1 \"b\":2}", "Expected comma or closing brace, got '\"'"),
        ("{\"a\":1", "Unterminated object"),
    ];
    for (text, message) in cases {
        let err = parse_json(text).unwrap_err();
        assert_eq!(err.message(), message, "input {:?}", text);
    }
}

#[test]
fn test_unicode_escape_decodes() {
    assert_eq!(
        parse_json("\"\\u0041\\u00E9\\uFFFD\"").unwrap(),
        JsonValue::String("A\u{00E9}\u{FFFD}".to_string())
    );
}

#[test]
fn test_leading_zeros_accepted() {
    assert_eq!(
        parse_json("007").unwrap(),
        JsonValue::Number("007".to_string())
    );
}

#[test]
fn test_multibyte_characters_in_text() {
    assert_eq!(
        parse_json("{\"gr\u{00FC}\u{00DF}e\": \"\u{263A}\u{1F600}\"}")
            .unwrap()
            .get("gr\u{00FC}\u{00DF}e"),
        Some(&JsonValue::String("\u{263A}\u{1F600}".to_string()))
    );
}

//! The JSON document model behind the normaliser and the evaluator.

use soroban_debugger::json::json_parse;
use soroban_debugger::json::json_to_string;
use soroban_debugger::json::JsonValue;

#[test]
fn parsing_builds_the_document_model() {
    let doc = json_parse("{\"b\": [1, true, null], \"a\": \"x\"}").unwrap();
    match &doc {
        JsonValue::Object(fields) => {
            assert_eq!(fields.len(), 2);
            // serde_json orders object keys
            assert_eq!(fields[0].0, "a");
            assert!(matches!(&fields[0].1, JsonValue::String(s) if s == "x"));
            match &fields[1].1 {
                JsonValue::Array(xs) => {
                    assert_eq!(xs.len(), 3);
                    assert!(matches!(&xs[0], JsonValue::Number(n) if n == "1"));
                    assert!(matches!(&xs[1], JsonValue::Bool(true)));
                    assert!(matches!(&xs[2], JsonValue::Null));
                }
                other => panic!("expected an array, got {:?}", other),
            }
        }
        other => panic!("expected an object, got {:?}", other),
    }
    assert!(json_parse("{not json").is_none());
}

#[test]
fn rendering_produces_compact_json_text() {
    let doc = json_parse("{\"a\": [1, \"two\", null], \"b\": true}").unwrap();
    assert_eq!(json_to_string(&doc), "{\"a\":[1,\"two\",null],\"b\":true}");
}

#[test]
fn rendering_escapes_string_content() {
    let doc = json_parse("[\"quote \\\" and backslash \\\\ and newline \\n\"]").unwrap();
    assert_eq!(
        json_to_string(&doc),
        "[\"quote \\\" and backslash \\\\ and newline \\n\"]"
    );
}

#[test]
fn rendering_uses_short_escapes_for_backspace_and_form_feed() {
    let doc = json_parse("[\"a\\b\\f\\u0001z\"]").unwrap();
    assert_eq!(json_to_string(&doc), "[\"a\\b\\f\\u0001z\"]");
}

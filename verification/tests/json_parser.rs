use codingchallenges::json_parser::parse_json;

fn valid(s: &str) {
    assert!(parse_json(s).is_ok(), "Expected valid, got error for: {s}");
}

fn invalid(s: &str) {
    assert!(parse_json(s).is_err(), "Expected invalid, but parsed ok: {s}");
}

// Step 1 – empty object
#[test]
fn test_empty_object() { valid("{}"); }
#[test]
fn test_truly_empty() { invalid(""); }
#[test]
fn test_bare_brace() { invalid("{"); }

// Step 2 – string keys and values
#[test]
fn test_string_kv() { valid(r#"{"key": "value"}"#); }
#[test]
fn test_multiple_string_kv() {
    valid(r#"{"key1": "value1", "key2": "value2"}"#);
}
#[test]
fn test_missing_value() { invalid(r#"{"key": }"#); }
#[test]
fn test_missing_colon() { invalid(r#"{"key" "value"}"#); }
#[test]
fn test_trailing_comma_object() { invalid(r#"{"key": "value",}"#); }

// Step 3 – all scalar types
#[test]
fn test_scalars() {
    valid(r#"{"key1": true, "key2": false, "key3": null, "key4": "value", "key5": 101}"#);
}
#[test]
fn test_number_negative() { valid(r#"{"n": -42}"#); }
#[test]
fn test_number_float() { valid(r#"{"n": 3.14}"#); }
#[test]
fn test_number_exp() { valid(r#"{"n": 1e10}"#); }
#[test]
fn test_number_leading_zero() { invalid(r#"{"n": 01}"#); }
#[test]
fn test_bool_typo() { invalid(r#"{"k": True}"#); }

// Step 4 – nested objects and arrays
#[test]
fn test_nested_object() {
    valid(r#"{"key": "value", "key-n": 101, "key-o": {}, "key-l": []}"#);
}
#[test]
fn test_array_values() { valid(r#"{"arr": [1, 2, 3]}"#); }
#[test]
fn test_deeply_nested() {
    valid(r#"{"a": {"b": {"c": [1, [2, 3]]}}}"#);
}
#[test]
fn test_trailing_comma_array() { invalid(r#"{"arr": [1, 2,]}"#); }

// String edge cases
#[test]
fn test_string_escape_sequences() {
    valid(r#"{"s": "line1\nline2\ttab\r\n"}"#);
}
#[test]
fn test_string_unicode_escape() {
    valid(r#"{"s": "\u0041"}"#); // 'A'
}
#[test]
fn test_string_invalid_escape() {
    invalid(r#"{"s": "\q"}"#);
}
#[test]
fn test_unquoted_key() { invalid(r#"{key: "value"}"#); }

// Top-level non-object values (valid JSON)
#[test]
fn test_top_level_array() { valid("[1, 2, 3]"); }
#[test]
fn test_top_level_string() { valid(r#""hello""#); }
#[test]
fn test_top_level_number() { valid("42"); }
#[test]
fn test_top_level_null() { valid("null"); }

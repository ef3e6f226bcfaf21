//! What the command-line program prints for a document on its input and a
//! target among its arguments, checked on the library that does the search.

use json_key_from_value::{find_paths, Scalar, SearchType, Value};
use simd_json::{BorrowedValue, StaticNode};

fn convert(value: &BorrowedValue) -> Value {
    match value {
        BorrowedValue::Static(StaticNode::Null) => Value::Scalar(Scalar::Null),
        BorrowedValue::Static(StaticNode::Bool(b)) => Value::Scalar(Scalar::Bool(*b)),
        BorrowedValue::Static(StaticNode::I64(i)) => Value::Scalar(Scalar::Int(*i)),
        BorrowedValue::Static(StaticNode::U64(u)) => Value::Scalar(Scalar::UInt(*u)),
        BorrowedValue::Static(StaticNode::F64(f)) => Value::Scalar(Scalar::Float(f.to_bits())),
        BorrowedValue::String(s) => Value::Scalar(Scalar::Str(s.to_string())),
        BorrowedValue::Array(items) => Value::Array(items.iter().map(convert).collect()),
        BorrowedValue::Object(entries) => Value::Object(
            entries
                .iter()
                .map(|(key, value)| (key.to_string(), convert(value)))
                .collect(),
        ),
    }
}

fn parse(text: &str) -> Value {
    let mut bytes = text.as_bytes().to_vec();
    let parsed = simd_json::to_borrowed_value(&mut bytes).unwrap();
    convert(&parsed)
}

/// The standard output of a successful run: each path and a line feed.
fn stdout(json_input: &str, value_to_find: &str, max_results: Option<usize>) -> String {
    let document = parse(json_input);
    let target = parse(value_to_find);
    let paths = find_paths(&document, &target, max_results, SearchType::Value).unwrap();
    let mut out = String::new();
    for path in paths {
        out.push_str(&path);
        out.push('\n');
    }
    out
}

#[test]
fn test_find_string_value_in_object() {
    let json_input = r#"{"key1":"value1","key2":"value2"}"#;
    let value_to_find = "\"value1\"";
    assert!(stdout(json_input, value_to_find, None).contains("[\"key1\"]\n"));
}

#[test]
fn test_find_number_value_in_array() {
    let json_input = r#"[1, 2, 3, 4]"#;
    let value_to_find = "3";
    assert!(stdout(json_input, value_to_find, None).contains("[2]\n"));
}

#[test]
fn test_find_boolean_value_nested() {
    let json_input = r#"{"a": {"b": [true, false]}}"#;
    let value_to_find = "true";
    assert!(stdout(json_input, value_to_find, None).contains("[\"a\"][\"b\"][0]\n"));
}

#[test]
fn test_find_null_value() {
    let json_input = r#"{"key": null}"#;
    let value_to_find = "null";
    assert!(stdout(json_input, value_to_find, None).contains("[\"key\"]\n"));
}

#[test]
fn test_multiple_matches() {
    let json_input = r#"[1, 2, 3, 2, 1]"#;
    let value_to_find = "1";
    let out = stdout(json_input, value_to_find, None);
    assert!(out.contains("[4]\n"));
    assert!(out.contains("[0]\n"));
}

#[test]
fn test_value_not_found() {
    let json_input = r#"{"key": "value"}"#;
    let value_to_find = "\"nonexistent\"";
    assert_eq!(stdout(json_input, value_to_find, None), "");
}

#[test]
fn test_empty_json_object() {
    let json_input = r#"{}"#;
    let value_to_find = "1";
    assert_eq!(stdout(json_input, value_to_find, None), "");
}

#[test]
fn test_empty_json_array() {
    let json_input = r#"[]"#;
    let value_to_find = "1";
    assert_eq!(stdout(json_input, value_to_find, None), "");
}

#[test]
fn test_complex_nested_structure() {
    let json_input = r#"
    {
        "level1": {
            "level2": [
                {
                    "level3": "deep_value"
                }
            ]
        }
    }
    "#;
    let value_to_find = "\"deep_value\"";
    assert!(stdout(json_input, value_to_find, None)
        .contains("[\"level1\"][\"level2\"][0][\"level3\"]\n"));
}

#[test]
fn test_search_for_number_in_string_values() {
    let json_input = r#"{"a": "1", "b": 1}"#;
    let value_to_find = "1";
    assert!(stdout(json_input, value_to_find, None).contains("[\"b\"]\n"));
}

#[test]
fn test_search_for_string_number() {
    let json_input = r#"{"a": "1", "b": 1}"#;
    let value_to_find = "\"1\"";
    assert!(stdout(json_input, value_to_find, None).contains("[\"a\"]\n"));
}

#[test]
fn test_array_of_objects() {
    let json_input = r#"[{"id": 1}, {"id": 2}, {"id": 3}]"#;
    let value_to_find = "2";
    assert!(stdout(json_input, value_to_find, None).contains("[1][\"id\"]\n"));
}

#[test]
fn test_special_characters_in_keys() {
    let json_input = r#"{"key-with-dash": "value", "key with space": "value"}"#;
    let value_to_find = "\"value\"";
    let out = stdout(json_input, value_to_find, None);
    assert!(out.contains("[\"key-with-dash\"]\n"));
    assert!(out.contains("[\"key with space\"]\n"));
}

#[test]
fn test_deeply_nested_arrays() {
    let json_input = r#"[ [ [ [ [42] ] ] ] ]"#;
    let value_to_find = "42";
    assert!(stdout(json_input, value_to_find, None).contains("[0][0][0][0][0]\n"));
}

#[test]
fn test_large_json_input() {
    let json_input = format!(
        "[{}]",
        (0..10000)
            .map(|i| i.to_string())
            .collect::<Vec<_>>()
            .join(",")
    );
    let value_to_find = "9999";
    assert!(stdout(&json_input, value_to_find, None).contains("[9999]\n"));
}

#[test]
fn test_json_with_special_characters() {
    let json_input = r#"{"key\nwith\nnewline": "value"}"#;
    let value_to_find = "\"value\"";
    assert!(stdout(json_input, value_to_find, None).contains("[\"key\\nwith\\nnewline\"]\n"));
}

#[test]
fn test_search_for_object_value() {
    let json_input = r#"{"a": {"b": 1}, "c": {"b": 1}}"#;
    let value_to_find = r#"{"b":1}"#;
    let out = stdout(json_input, value_to_find, None);
    assert!(out.contains("[\"a\"]\n"));
    assert!(out.contains("[\"c\"]\n"));
}

#[test]
fn test_search_for_array_value() {
    let json_input = r#"{"a": [1,2], "b": [1,2]}"#;
    let value_to_find = "[1,2]";
    let out = stdout(json_input, value_to_find, None);
    assert!(out.contains("[\"a\"]\n"));
    assert!(out.contains("[\"b\"]\n"));
}

#[test]
fn test_search_with_escaped_characters() {
    let json_input = r#"{"quote": "\""}"#;
    let value_to_find = r#""\"""#;
    assert!(stdout(json_input, value_to_find, None).contains("[\"quote\"]\n"));
}

#[test]
fn test_max_results() {
    let json_input = r#"[1, 1, 1, 2, 4]"#;
    let value_to_find = "1";
    let out = stdout(json_input, value_to_find, Some(2));
    assert!(out.contains("[0]\n"));
    assert!(out.contains("[1]\n"));
    assert!(!out.contains("[2]\n"));
}

#[test]
fn string_value_in_object_is_the_only_path() {
    assert_eq!(
        stdout(r#"{"key1":"value1","key2":"value2"}"#, "\"value1\"", None),
        "[\"key1\"]\n"
    );
}

#[test]
fn deeply_nested_arrays_give_one_path() {
    assert_eq!(stdout("[ [ [ [ [42] ] ] ] ]", "42", None), "[0][0][0][0][0]\n");
}

#[test]
fn null_value_is_found() {
    assert_eq!(stdout(r#"{"key": null}"#, "null", None), "[\"key\"]\n");
}

#[test]
fn max_results_keeps_the_first_two() {
    assert_eq!(stdout("[1, 1, 1, 2, 4]", "1", None), "[0]\n[1]\n[2]\n");
    assert_eq!(stdout("[1, 1, 1, 2, 4]", "1", Some(2)), "[0]\n[1]\n");
}

#[test]
fn object_and_key_targets() {
    let json_input = r#"{"a": {"b": 1}, "c": {"b": 1}}"#;
    assert_eq!(stdout(json_input, r#"{"b":1}"#, None), "[\"a\"]\n[\"c\"]\n");
    let document = parse(json_input);
    let paths = find_paths(&document, &parse("\"b\""), None, SearchType::Key).unwrap();
    assert_eq!(paths, vec!["[\"a\"][\"b\"]", "[\"c\"][\"b\"]"]);
}

#[test]
fn number_with_a_fraction_is_no_integer() {
    assert_eq!(stdout("[1, 1.0, -1, 1e0]", "1", None), "[0]\n");
    assert_eq!(stdout("[1, 1.0, -1, 1e0]", "1.0", None), "[1]\n[3]\n");
    assert_eq!(stdout("[1, 1.0, -1, 1e0]", "-1", None), "[2]\n");
    assert_eq!(stdout("[18446744073709551615, -1]", "18446744073709551615", None), "[0]\n");
}

#[test]
fn key_with_escapes_is_written_as_it_was_read() {
    let json_input = r#"{"a\"b\\c\u0001\n\u00e9": [true]}"#;
    assert_eq!(
        stdout(json_input, "true", None),
        "[\"a\\\"b\\\\c\\u0001\\n\u{e9}\"][0]\n"
    );
}

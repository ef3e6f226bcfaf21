//! The search on documents built by hand: order, cap, the two modes, and the
//! refusal of a key search without a string.

use json_key_from_value::{find_paths, Scalar, SearchError, SearchType, Value};

fn uint(n: u64) -> Value {
    Value::Scalar(Scalar::UInt(n))
}

fn text(s: &str) -> Value {
    Value::Scalar(Scalar::Str(s.to_string()))
}

fn object(entries: Vec<(&str, Value)>) -> Value {
    Value::Object(
        entries
            .into_iter()
            .map(|(key, value)| (key.to_string(), value))
            .collect(),
    )
}

fn values(document: &Value, target: &Value, max_results: Option<usize>) -> Vec<String> {
    find_paths(document, target, max_results, SearchType::Value).unwrap()
}

fn keys(document: &Value, key: &str, max_results: Option<usize>) -> Vec<String> {
    find_paths(document, &text(key), max_results, SearchType::Key).unwrap()
}

#[test]
fn array_hits_come_in_index_order() {
    let document = Value::Array(vec![uint(1), uint(1), uint(1), uint(2), uint(4)]);
    assert_eq!(values(&document, &uint(1), None), vec!["[0]", "[1]", "[2]"]);
}

#[test]
fn cap_keeps_the_first_paths() {
    let document = Value::Array(vec![uint(1), uint(1), uint(1), uint(2), uint(4)]);
    assert_eq!(values(&document, &uint(1), Some(2)), vec!["[0]", "[1]"]);
    assert_eq!(values(&document, &uint(1), Some(1)), vec!["[0]"]);
    assert_eq!(values(&document, &uint(1), Some(3)), vec!["[0]", "[1]", "[2]"]);
}

#[test]
fn cap_above_the_number_of_hits_changes_nothing() {
    let document = Value::Array(vec![uint(1), uint(1), uint(1), uint(2), uint(4)]);
    assert_eq!(values(&document, &uint(1), Some(4)), vec!["[0]", "[1]", "[2]"]);
    assert_eq!(values(&document, &uint(1), Some(usize::MAX)), vec!["[0]", "[1]", "[2]"]);
}

#[test]
fn cap_of_zero_is_never_reached() {
    let document = Value::Array(vec![uint(1), uint(1)]);
    assert_eq!(values(&document, &uint(1), Some(0)), vec!["[0]", "[1]"]);
}

#[test]
fn cap_stops_inside_a_nested_document() {
    let document = object(vec![
        ("a", Value::Array(vec![uint(5), uint(6), uint(5)])),
        ("b", uint(5)),
        ("c", object(vec![("d", uint(5))])),
    ]);
    assert_eq!(
        values(&document, &uint(5), None),
        vec!["[\"a\"][0]", "[\"a\"][2]", "[\"b\"]", "[\"c\"][\"d\"]"]
    );
    assert_eq!(
        values(&document, &uint(5), Some(3)),
        vec!["[\"a\"][0]", "[\"a\"][2]", "[\"b\"]"]
    );
}

#[test]
fn value_and_key_search_differ() {
    let document = object(vec![
        ("a", object(vec![("b", uint(1))])),
        ("c", object(vec![("b", uint(1))])),
    ]);
    let target = object(vec![("b", uint(1))]);
    assert_eq!(values(&document, &target, None), vec!["[\"a\"]", "[\"c\"]"]);
    assert_eq!(keys(&document, "b", None), vec!["[\"a\"][\"b\"]", "[\"c\"][\"b\"]"]);
}

#[test]
fn key_search_goes_on_below_a_hit() {
    let document = object(vec![(
        "k",
        object(vec![("x", Value::Array(vec![object(vec![("k", object(vec![("k", uint(0))]))])]))]),
    )]);
    assert_eq!(
        keys(&document, "k", None),
        vec!["[\"k\"]", "[\"k\"][\"x\"][0][\"k\"]", "[\"k\"][\"x\"][0][\"k\"][\"k\"]"]
    );
}

#[test]
fn key_search_with_a_cap() {
    let document = object(vec![("k", object(vec![("k", object(vec![("k", uint(0))]))]))]);
    assert_eq!(keys(&document, "k", Some(2)), vec!["[\"k\"]", "[\"k\"][\"k\"]"]);
}

#[test]
fn value_search_stops_at_a_hit() {
    let inner = Value::Array(vec![uint(1)]);
    let document = Value::Array(vec![Value::Array(vec![uint(1)]), uint(1)]);
    assert_eq!(values(&document, &inner, None), vec!["[0]"]);
    assert_eq!(values(&document, &uint(1), None), vec!["[0][0]", "[1]"]);

    let nested = Value::Array(vec![Value::Array(vec![Value::Array(vec![])])]);
    let target = Value::Array(vec![Value::Array(vec![])]);
    assert_eq!(values(&nested, &target, None), vec!["[0]"]);
}

#[test]
fn root_hit_is_the_empty_path() {
    assert_eq!(values(&uint(3), &uint(3), None), vec![""]);
    let document = Value::Array(vec![uint(3)]);
    let same = Value::Array(vec![uint(3)]);
    assert_eq!(values(&document, &same, None), vec![""]);
}

#[test]
fn absent_value_finds_nothing() {
    let empty: Vec<String> = Vec::new();
    assert_eq!(values(&object(vec![]), &uint(1), None), empty);
    assert_eq!(values(&Value::Array(vec![]), &uint(1), None), empty);
    let document = object(vec![("a", Value::Array(vec![uint(2), text("1")])), ("b", uint(3))]);
    assert_eq!(values(&document, &uint(1), None), empty);
    assert_eq!(values(&document, &uint(1), Some(1)), empty);
}

#[test]
fn absent_key_finds_nothing() {
    let empty: Vec<String> = Vec::new();
    let document = object(vec![("a", Value::Array(vec![text("k")]))]);
    assert_eq!(keys(&document, "k", None), empty);
    assert_eq!(keys(&text("k"), "k", None), empty);
}

#[test]
fn key_search_needs_a_string() {
    let document = object(vec![("1", uint(1))]);
    for target in [
        uint(1),
        Value::Scalar(Scalar::Null),
        Value::Scalar(Scalar::Bool(true)),
        Value::Array(vec![text("1")]),
        object(vec![]),
    ] {
        assert_eq!(
            find_paths(&document, &target, None, SearchType::Key),
            Err(SearchError::InvalidTarget)
        );
        assert_eq!(
            find_paths(&document, &target, Some(1), SearchType::Key),
            Err(SearchError::InvalidTarget)
        );
    }
    assert_eq!(keys(&document, "1", None), vec!["[\"1\"]"]);
}

#[test]
fn object_entries_are_visited_in_their_order() {
    let document = object(vec![("z", uint(1)), ("a", uint(1)), ("m", uint(1))]);
    assert_eq!(
        values(&document, &uint(1), None),
        vec!["[\"z\"]", "[\"a\"]", "[\"m\"]"]
    );
    assert_eq!(values(&document, &uint(1), Some(1)), vec!["[\"z\"]"]);
}

#[test]
fn siblings_share_the_path_of_their_parent_only() {
    let document = object(vec![
        ("a", object(vec![("b", Value::Array(vec![uint(0), uint(9)]))])),
        ("c", Value::Array(vec![uint(9)])),
        ("d", uint(9)),
    ]);
    assert_eq!(
        values(&document, &uint(9), None),
        vec!["[\"a\"][\"b\"][1]", "[\"c\"][0]", "[\"d\"]"]
    );
}

#[test]
fn deep_document_needs_no_call_depth() {
    let depth = 100_000;
    let mut document = uint(42);
    for _ in 0..depth {
        document = Value::Array(vec![document]);
    }
    let paths = values(&document, &uint(42), None);
    assert_eq!(paths.len(), 1);
    assert!(paths[0] == "[0]".repeat(depth));
    // taken apart by hand: dropping so deep a value would need the call depth
    let mut rest = document;
    while let Value::Array(mut items) = rest {
        rest = items.pop().unwrap();
    }
}

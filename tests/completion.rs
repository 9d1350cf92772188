use jawohl::{
    complete_json, complete_with_mode, get_closing_string_for_partial_json, untruncate_json,
    CompletionMode, MalformedJsonError,
};

fn suffix_of(input: &str) -> String {
    let done = complete_json(input).unwrap();
    assert!(done.starts_with(input));
    done[input.len()..].to_string()
}

fn parses(text: &str) -> bool {
    serde_json::from_str::<serde_json::Value>(text).is_ok()
}

#[test]
fn corrupt_texts_are_rejected_by_both_operations() {
    for input in [
        r#"{"key": "value"}}"#,
        r#"["hello", "world"]]"#,
        r#"{"foo": "bar", "nested": {"a": [[1, 2, 3], "b": "text"}}"#,
    ] {
        assert_eq!(get_closing_string_for_partial_json(input), Err(MalformedJsonError));
        assert_eq!(complete_json(input), Err(MalformedJsonError));
    }
}

#[test]
fn closer_with_nothing_open_is_malformed() {
    assert!(get_closing_string_for_partial_json("]").is_err());
    assert!(get_closing_string_for_partial_json("}").is_err());
    assert!(complete_json("[}").is_err());
}

#[test]
fn nested_text_gets_four_closers() {
    let input = r#"{"key": "value", "arr": [1, 2, {"nested_key": "nested_value"#;
    assert_eq!(suffix_of(input), "\"}]}");
}

#[test]
fn open_string_value_is_closed() {
    assert_eq!(suffix_of(r#"{"name": "Bob"#), "\"}");
}

#[test]
fn unicode_escape_is_rolled_back() {
    assert_eq!(untruncate_json("\"ab\\u006"), "\"ab\"");
    assert_eq!(untruncate_json("\"ab\\"), "\"ab\"");
    assert_eq!(untruncate_json("[\"x\\u00"), "[\"x\"]");
}

#[test]
fn bracket_only_closes_inside_an_escape() {
    assert_eq!(
        complete_with_mode("\"ab\\u006", CompletionMode::BracketOnly),
        "\"ab\\u006\""
    );
    assert_eq!(jawohl::complete_json::complete_json("[1, "), "[1, ]");
    assert_eq!(jawohl::complete_json::complete_json("[tr"), "[true]");
}

#[test]
fn literals_are_finished_without_rollback() {
    assert_eq!(untruncate_json("t"), "true");
    assert_eq!(untruncate_json("tru"), "true");
    assert_eq!(untruncate_json("[fa"), "[false]");
    assert_eq!(untruncate_json("{\"a\": nul"), "{\"a\": null}");
}

#[test]
fn numbers_are_padded() {
    assert_eq!(untruncate_json("-"), "-0");
    assert_eq!(untruncate_json("[1."), "[1.0]");
    assert_eq!(untruncate_json("1e"), "1e0");
    assert_eq!(untruncate_json("1e-"), "1e-0");
    assert_eq!(untruncate_json("[12"), "[12]");
}

#[test]
fn dangling_items_are_rolled_back() {
    assert_eq!(untruncate_json("[1, "), "[1]");
    assert_eq!(untruncate_json("{\"a\": 1, \"b"), "{\"a\": 1}");
    assert_eq!(untruncate_json("{\"a\": 1, \"b\":"), "{\"a\": 1}");
    assert_eq!(untruncate_json("{\"a"), "{}");
    assert_eq!(untruncate_json("["), "[]");
    assert_eq!(untruncate_json(""), "");
}

#[test]
fn number_followed_by_closer_is_read_by_its_parent() {
    assert_eq!(untruncate_json("[1]"), "[1]");
    assert_eq!(untruncate_json("{\"a\": [1, 2]}"), "{\"a\": [1, 2]}");
}

#[test]
fn scanner_suggests_a_quote_for_an_open_string() {
    assert_eq!(get_closing_string_for_partial_json("[\"ab").unwrap(), "\"]");
    assert_eq!(get_closing_string_for_partial_json("\"a\\\"").unwrap(), "\"");
    assert_eq!(get_closing_string_for_partial_json("").unwrap(), "");
}

#[test]
fn complete_texts_are_unchanged() {
    for text in [
        "{\"a\": [1, -2.5e+3, true, false, null, \"x\\n\\u0041\"], \"b\": {}}",
        "[]",
        "\"s\"",
        "0",
    ] {
        assert_eq!(complete_json(text).unwrap(), text);
    }
}

#[test]
fn every_prefix_completes_to_valid_json() {
    for text in [
        "{\"a\": [1, -2.5e+3, true, false, null, \"x\\n\\u0041\"], \"b\": {\"c\": [[], {}]}}",
        "[\"\\\\\", 0.5, {\"k\": \"v\"}, [true]]",
        "{\"escaped\": \"\\\"q\\\"\", \"n\": 10E5}",
    ] {
        let chars: Vec<char> = text.chars().collect();
        for i in 0..=chars.len() {
            let prefix: String = chars[..i].iter().collect();
            let done = complete_json(&prefix).unwrap();
            if !prefix.trim().is_empty() {
                assert!(parses(&done), "{} -> {}", prefix, done);
            }
        }
    }
}

#[test]
fn error_has_a_message() {
    assert_eq!(MalformedJsonError.message(), "The input JSON string is malformed.");
}

use polyglot_bridge::json::{
    beautify_json, count_arrays, count_json_keys, count_objects, is_valid_json, json_depth,
    minify_json,
};

#[test]
fn test_is_valid_json() {
    assert!(is_valid_json(r#"{"key": "value"}"#));
    assert!(is_valid_json(r#"[1, 2, 3]"#));
    assert!(!is_valid_json(r#"{"key": "value""#));
}

#[test]
fn test_json_depth() {
    assert_eq!(json_depth(r#"{"a": {"b": {"c": 1}}}"#), 3);
    assert_eq!(json_depth(r#"[1, 2, 3]"#), 1);
}

#[test]
fn test_minify() {
    let input = r#"{
            "key": "value",
            "number": 42
        }"#;
    let minified = minify_json(input);
    assert_eq!(minified, r#"{"key":"value","number":42}"#);
}

#[test]
fn validation_catches_mismatch_and_ignores_strings() {
    assert!(!is_valid_json("{]"));
    assert!(!is_valid_json("}"));
    assert!(!is_valid_json("[[]"));
    assert!(is_valid_json(r#"{"a": "}]"}"#));
    assert!(is_valid_json(r#"  {"q": "say \"hi\""}  "#));
    assert!(!is_valid_json(r#""open"#));
    assert!(is_valid_json(""));
}

#[test]
fn counts_skip_string_contents() {
    let j = r#"{"a": {"b": [1, {"c": "{["}]}, "d": [[]]}"#;
    assert_eq!(count_objects(j), 3);
    assert_eq!(count_arrays(j), 3);
    assert_eq!(count_json_keys(j), 2);
    assert_eq!(count_json_keys(r#"{"x": 1, "y": {"z": 2}, "w": "a:b"}"#), 3);
    assert_eq!(json_depth(""), 0);
}

#[test]
fn minify_keeps_string_whitespace() {
    assert_eq!(minify_json("[ \"a b\" ,\t1 ]"), "[\"a b\",1]");
}

#[test]
fn beautify_indents_by_depth() {
    assert_eq!(
        beautify_json(r#"{"a":[1,2]}"#, 2),
        Some("{\n  \"a\": [\n    1,\n    2\n  ]\n}".to_string())
    );
    assert_eq!(beautify_json("[]", 4), Some("[\n    \n]".to_string()));
    assert_eq!(beautify_json("]", 2), None);
    assert_eq!(beautify_json("\"]\"", 2), Some("\"]\"".to_string()));
}

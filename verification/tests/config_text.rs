//! Tests of configuration-file helpers and the expression bridge.

use mockito_core::config::{get_file_type, strip_json_comments, ConfigFileType};
use mockito_core::expression::{evaluate_jmespath, match_with_jmespath};
use mockito_core::json::Value;

fn obj(entries: Vec<(&str, Value)>) -> Value {
    Value::Object(entries.into_iter().map(|(k, v)| (k.to_string(), v)).collect())
}

#[test]
fn file_type_by_extension() {
    assert_eq!(get_file_type("test.yaml"), ConfigFileType::Yaml);
    assert_eq!(get_file_type("test.YAML"), ConfigFileType::Yaml);
    assert_eq!(get_file_type("test.yml"), ConfigFileType::Yaml);
    assert_eq!(get_file_type("test.YML"), ConfigFileType::Yaml);
    assert_eq!(get_file_type("test.json"), ConfigFileType::Json);
    assert_eq!(get_file_type("test.JSON"), ConfigFileType::Json);
    assert_eq!(get_file_type("test.jsonc"), ConfigFileType::Jsonc);
    assert_eq!(get_file_type("test.JSONC"), ConfigFileType::Jsonc);
    assert_eq!(get_file_type("test.txt"), ConfigFileType::Unknown);
    assert_eq!(get_file_type("test"), ConfigFileType::Unknown);
    assert_eq!(get_file_type(""), ConfigFileType::Unknown);
    assert_eq!(get_file_type("dir.json/file"), ConfigFileType::Unknown);
    assert_eq!(get_file_type("dir/file.json"), ConfigFileType::Json);
    assert_eq!(get_file_type(".json"), ConfigFileType::Unknown);
}

#[test]
fn strip_comments_leaves_plain_json() {
    let input = r#"{"key": "value"}"#;
    assert_eq!(strip_json_comments(input), input);
}

#[test]
fn strip_line_comments() {
    assert_eq!(
        strip_json_comments("{\"key\": \"value\"} // comment"),
        "{\"key\": \"value\"} ",
    );
    assert_eq!(
        strip_json_comments("{\"key\": \"value\"} // comment\n{\"key2\": \"value2\"}"),
        "{\"key\": \"value\"} \n{\"key2\": \"value2\"}",
    );
}

#[test]
fn strip_block_comments() {
    assert_eq!(
        strip_json_comments("{\"key\": \"value\"} /* block */"),
        "{\"key\": \"value\"} ",
    );
    assert_eq!(
        strip_json_comments("{\"a\": /* inline */ 1}"),
        "{\"a\":  1}",
    );
}

#[test]
fn strip_comments_preserves_strings() {
    let input = r#"{"key": "value // not a comment"}"#;
    assert_eq!(strip_json_comments(input), input);
    let input = r#"{"key": "value /* not a comment */"}"#;
    assert_eq!(strip_json_comments(input), input);
}

#[test]
fn strip_comments_preserves_escaped_quotes() {
    let input = r#"{"key": "value \"quote\" here"}"#;
    assert_eq!(strip_json_comments(input), input);
    let result = strip_json_comments(r#"{"key": "value \"quote\" here"} // gone"#);
    assert_eq!(result, r#"{"key": "value \"quote\" here"} "#);
}

#[test]
fn strip_comments_output_parses_as_json() {
    for input in [
        r#"{"key": "value"}"#,
        r#"{"key": "value"} // comment"#,
        r#"{"key": "value"} /* block */"#,
    ] {
        let stripped = strip_json_comments(input);
        let parsed: Result<serde_json::Value, _> = serde_json::from_str(&stripped);
        assert!(parsed.is_ok(), "stripped content no longer parses: {}", stripped);
    }
}

#[test]
fn evaluate_expression_returns_result_text() {
    let data = obj(vec![
        ("value", Value::Number(5)),
        (
            "items",
            Value::Array(vec![
                obj(vec![("id", Value::Number(1))]),
                obj(vec![("id", Value::Number(2))]),
                obj(vec![("id", Value::Number(3))]),
            ]),
        ),
    ]);
    assert_eq!(evaluate_jmespath("value", &data), Some("5".to_string()));
    assert_eq!(evaluate_jmespath("items[0].id", &data), Some("1".to_string()));
    assert_eq!(evaluate_jmespath("items[*].id", &data), Some("[1,2,3]".to_string()));
    assert_eq!(evaluate_jmespath("nonexistent", &data), Some("null".to_string()));
    assert_eq!(evaluate_jmespath("[invalid", &data), None);
}

#[test]
fn match_with_jmespath_truthiness() {
    let data = obj(vec![("value", Value::Number(5))]);
    assert!(match_with_jmespath("value > `3`", &data));
    assert!(!match_with_jmespath("value > `10`", &data));
    assert!(match_with_jmespath("value", &data));
    assert!(!match_with_jmespath("value - value", &data));
    assert!(!match_with_jmespath("[invalid", &data));
}

#[test]
fn expression_sees_serialized_strings_escaped() {
    // A value holding quotes, backslashes and a control character must
    // survive the serialization round trip into the evaluator.
    let data = obj(vec![("text", Value::String("a \"quoted\" \\ value\nline".to_string()))]);
    assert_eq!(
        evaluate_jmespath("text", &data),
        Some("\"a \\\"quoted\\\" \\\\ value\\nline\"".to_string()),
    );
    assert!(match_with_jmespath("text", &data));
    let empty = obj(vec![("text", Value::String(String::new()))]);
    assert!(!match_with_jmespath("text", &empty));
}

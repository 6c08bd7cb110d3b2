use gasp::json_parser::Parser;
use gasp::json_value::JsonValue;
use gasp::parser_types::{count_leading_whitespace, get_nested_value};

#[test]
fn test_parse_llm_output() {
    // Relaxed JSON parsing features exercised one by one.
    let cases = vec![
        // Unquoted keys
        r#"{"person": {name: "Alice", age: 25, interests: ["coding"]}}"#,
        // Single quotes
        r#"{'person': {'name': 'Alice', 'age': 25, 'interests': ['coding']}}"#,
        // Trailing commas
        r#"{"person": {"name": "Alice", "age": 25, "interests": ["coding",],}}"#,
        // Mixed quotes and unquoted identifiers
        r#"{"person": {name: 'Alice', "age": 25, interests: ["coding"]}}"#,
    ];

    for case in cases {
        let mut parser = Parser::new(false);
        assert!(parser.parse(case).is_ok(), "Failed to parse: {}", case);
    }
}

fn parse_object(text: &str) -> Vec<(String, JsonValue)> {
    let mut parser = Parser::new(false);
    match parser.parse(text) {
        Ok(JsonValue::Object(entries)) => entries,
        other => panic!("expected an object, got {:?}", other),
    }
}

#[test]
fn test_get_nested_value_paths() {
    let json = parse_object(
        r#"{"user": {"name": "John", "address": {"city": "Springfield"}, "hobbies": ["reading", "gaming"]}}"#,
    );

    let name = get_nested_value(&json, "user.name");
    assert_eq!(name, Some(&JsonValue::String("John".to_string())));

    let city = get_nested_value(&json, "user.address.city");
    assert_eq!(city, Some(&JsonValue::String("Springfield".to_string())));

    let hobby = get_nested_value(&json, "user.hobbies.0");
    assert_eq!(hobby, Some(&JsonValue::String("reading".to_string())));

    let second = get_nested_value(&json, "user.hobbies.1");
    assert_eq!(second, Some(&JsonValue::String("gaming".to_string())));
}

#[test]
fn test_get_nested_value_misses() {
    let json = parse_object(r#"{"user": {"name": "John", "hobbies": ["reading"]}}"#);

    assert_eq!(get_nested_value(&json, "invalid.path"), None);
    assert_eq!(get_nested_value(&json, ""), None);
    assert_eq!(get_nested_value(&json, "user.hobbies.99"), None);
    assert_eq!(get_nested_value(&json, "user.name.invalid"), None);
    // whitespace around components is trimmed
    assert_eq!(
        get_nested_value(&json, " user . name "),
        Some(&JsonValue::String("John".to_string()))
    );
}

#[test]
fn test_count_leading_whitespace() {
    assert_eq!(count_leading_whitespace("   abc"), 3);
    assert_eq!(count_leading_whitespace("abc"), 0);
    assert_eq!(count_leading_whitespace("\t\n x"), 3);
    assert_eq!(count_leading_whitespace(""), 0);
    assert_eq!(count_leading_whitespace("    "), 4);
}

use gasp::json_parser::{parse_ident, parse_number, squash_ws, unescape, Parser, StreamParser};
use gasp::json_value::{obj_get, JsonError, JsonValue, Number};
use gasp::tag_finder::{TagEvent, TagFinder};

#[test]
fn test_keyword_prefixes() {
    // every non-empty prefix of a keyword denotes its literal
    for p in ["t", "tr", "tru", "true"] {
        assert_eq!(parse_ident(p), Some(JsonValue::Boolean(true)));
    }
    for p in ["f", "fa", "fal", "fals", "false"] {
        assert_eq!(parse_ident(p), Some(JsonValue::Boolean(false)));
    }
    for p in ["n", "nu", "nul", "null"] {
        assert_eq!(parse_ident(p), Some(JsonValue::Null));
    }
    // anything else is no keyword, and matching is case-sensitive
    assert_eq!(parse_ident(""), None);
    assert_eq!(parse_ident("truex"), None);
    assert_eq!(parse_ident("True"), None);
    assert_eq!(parse_ident("debug"), None);
}

#[test]
fn test_squash_ws_examples() {
    assert_eq!(squash_ws("  a   b  "), "a b");
    assert_eq!(squash_ws("a"), "a");
    assert_eq!(squash_ws(""), "");
    assert_eq!(squash_ws("\t\nNew   York\r"), "New York");
    assert_eq!(squash_ws("   "), "");
}

#[test]
fn test_unescape_examples() {
    assert_eq!(unescape(r#"a\nb"#).unwrap(), "a\nb");
    assert_eq!(unescape(r#"☃"#).unwrap(), "\u{2603}");
    assert_eq!(unescape(r#"ABC"#).unwrap(), "ABC");
    assert_eq!(unescape(r#"plain"#).unwrap(), "plain");
    assert_eq!(unescape(r#"\"\\\/\b\f\n\r\t"#).unwrap(), "\"\\/\u{8}\u{c}\n\r\t");
    // malformed escapes fail
    assert_eq!(unescape(r#"\q"#), Err(JsonError::InvalidEscape));
    assert_eq!(unescape(r#"\u12"#), Err(JsonError::InvalidEscape));
    assert_eq!(unescape(r#"\u12zz"#), Err(JsonError::InvalidEscape));
    assert_eq!(unescape(r#"trailing\"#), Err(JsonError::InvalidEscape));
    // a lone surrogate code unit names no character
    assert_eq!(unescape(r#"\uD800"#), Err(JsonError::InvalidEscape));
}

#[test]
fn test_parse_number_examples() {
    assert_eq!(parse_number("42"), Ok(Number::Integer(42)));
    assert_eq!(parse_number("-7"), Ok(Number::Integer(-7)));
    // trailing delimiters from streaming boundaries are stripped
    assert_eq!(parse_number("42,"), Ok(Number::Integer(42)));
    assert_eq!(parse_number("42}  "), Ok(Number::Integer(42)));
    // a missing integer part reads as if it began with 0
    assert_eq!(parse_number(".5"), Ok(Number::Float("0.5".to_string())));
    assert_eq!(parse_number("-.5"), Ok(Number::Float("-0.5".to_string())));
    assert_eq!(parse_number("6e-1"), Ok(Number::Float("6e-1".to_string())));
    // the extremes of the 64-bit range parse exactly
    assert_eq!(
        parse_number("9223372036854775807"),
        Ok(Number::Integer(i64::MAX))
    );
    assert_eq!(
        parse_number("-9223372036854775808"),
        Ok(Number::Integer(i64::MIN))
    );
    assert_eq!(
        parse_number("9223372036854775808"),
        Err(JsonError::InvalidNumber("9223372036854775808".to_string()))
    );
    // malformed numbers carry the stripped text in the error
    assert_eq!(
        parse_number("1.2.3"),
        Err(JsonError::InvalidNumber("1.2.3".to_string()))
    );
    assert_eq!(
        parse_number("--1"),
        Err(JsonError::InvalidNumber("--1".to_string()))
    );
}

#[test]
fn test_unexpected_char_error() {
    let mut parser = Parser::new(false);
    assert_eq!(parser.parse("@"), Err(JsonError::UnexpectedChar('@')));
}

#[test]
fn test_unexpected_eof_error() {
    // an unfinished nested structure cannot finalise without streaming
    let mut parser = Parser::new(false);
    assert_eq!(parser.parse(r#"{"a": {"#), Err(JsonError::UnexpectedEof));
}

#[test]
fn test_keyword_as_key_rejected() {
    let mut parser = Parser::new(false);
    assert_eq!(parser.parse("{null: 1}"), Err(JsonError::InvalidKey));
}

#[test]
fn test_invalid_escape_in_document() {
    let mut parser = Parser::new(false);
    assert_eq!(parser.parse(r#""ab\qcd""#), Err(JsonError::InvalidEscape));
}

#[test]
fn test_invalid_number_in_document() {
    let mut parser = Parser::new(false);
    match parser.parse("[1.2.3]") {
        Err(JsonError::InvalidNumber(s)) => assert_eq!(s, "1.2.3"),
        other => panic!("expected an invalid-number error, got {:?}", other),
    }
}

#[test]
fn test_done_stream_stays_done() {
    // once a wanted tag has closed, every further step yields nothing
    let mut sp = StreamParser::default();
    let v = sp.step("<T>[1]</T>").unwrap().unwrap();
    assert_eq!(
        v,
        JsonValue::Array(vec![JsonValue::Number(Number::Integer(1))])
    );
    assert!(sp.is_done());
    assert_eq!(sp.step("<T>[2]</T>").unwrap(), None);
    assert_eq!(sp.step("").unwrap(), None);
    assert!(sp.is_done());
}

#[test]
fn test_case_insensitive_tags() {
    // tag matching folds case on both sides
    let mut sp = StreamParser::new(vec!["user".to_string()], vec![]);
    let v = sp.step(r#"<USER>{"a": 1}</User>"#).unwrap().unwrap();
    assert!(sp.is_done());
    match v {
        JsonValue::Object(m) => {
            assert_eq!(obj_get(&m, "a"), Some(&JsonValue::Number(Number::Integer(1))));
        }
        other => panic!("expected object, got {:?}", other),
    }
}

#[test]
fn test_ignored_region_consumed_whole() {
    // content inside an ignored tag, nested tags included, never surfaces
    let input = "<Outer>A<Ignored>hidden<Other>x</Other></Ignored>B</Outer>";
    let mut finder =
        TagFinder::new_with_filter(vec!["Outer".to_string()], vec!["Ignored".to_string()]);
    let mut payload = String::new();
    let mut opens = Vec::new();
    let mut closes = Vec::new();
    for ev in finder.push(input) {
        match ev {
            TagEvent::Open(n) => opens.push(n),
            TagEvent::Bytes(b) => payload.push_str(&b),
            TagEvent::Close(n) => closes.push(n),
        }
    }
    assert_eq!(payload, "AB");
    assert_eq!(opens, vec!["Outer".to_string()]);
    assert_eq!(closes, vec!["Outer".to_string()]);
}

#[test]
fn test_duplicate_keys_overwrite() {
    let mut parser = Parser::new(false);
    match parser.parse(r#"{"k": 1, "k": 2}"#) {
        Ok(JsonValue::Object(m)) => {
            assert_eq!(m.len(), 1);
            assert_eq!(obj_get(&m, "k"), Some(&JsonValue::Number(Number::Integer(2))));
        }
        other => panic!("expected object, got {:?}", other),
    }
}

#[test]
fn test_deep_copy_equals_original() {
    let mut parser = Parser::new(false);
    let v = parser
        .parse(r#"{"a": [1, true, null, "x"], "b": {"c": 2.5}}"#)
        .unwrap();
    assert_eq!(v.dup(), v);
}

#[test]
fn test_snapshot_mid_scalar() {
    // a partial scalar projects as its text
    let mut sp = StreamParser::default();
    let first = sp.step(r#"<N>{"v": 12"#).unwrap().unwrap();
    match first {
        JsonValue::Object(m) => {
            assert_eq!(obj_get(&m, "v"), Some(&JsonValue::String("12".to_string())));
        }
        other => panic!("expected object, got {:?}", other),
    }
    let last = sp.step("3}</N>").unwrap().unwrap();
    match last {
        JsonValue::Object(m) => {
            assert_eq!(
                obj_get(&m, "v"),
                Some(&JsonValue::Number(Number::Integer(123)))
            );
        }
        other => panic!("expected object, got {:?}", other),
    }
}

#[test]
fn test_bare_identifier_finalises_to_string() {
    // a non-keyword identifier at input end finalises to its
    // whitespace-squashed text as a string
    let mut parser = Parser::new(false);
    assert_eq!(parser.parse("hello"), Ok(JsonValue::String("hello".to_string())));

    let mut parser = Parser::new(false);
    assert_eq!(
        parser.parse("hello   world"),
        Ok(JsonValue::String("hello world".to_string()))
    );

    // a keyword prefix still finalises to its literal
    let mut parser = Parser::new(false);
    assert_eq!(parser.parse("tru"), Ok(JsonValue::Boolean(true)));

    let mut parser = Parser::new(false);
    assert_eq!(parser.parse("null"), Ok(JsonValue::Null));
}

#[test]
fn test_split_string_merge_at_root_only() {
    // at the implicit top-level array, a string gluing onto a previous
    // element that ends in a structural comma
    let mut sp = StreamParser::default();
    let v = sp.step(r#"<T>"abc," "def"</T>"#).unwrap().unwrap();
    assert_eq!(v, JsonValue::String("abcdef".to_string()));

    // inside a nested array the elements append unchanged
    let mut sp = StreamParser::default();
    let v = sp.step(r#"<T>{"a": ["x,", "y"]}</T>"#).unwrap().unwrap();
    match v {
        JsonValue::Object(m) => match obj_get(&m, "a") {
            Some(JsonValue::Array(items)) => {
                assert_eq!(
                    items,
                    &vec![
                        JsonValue::String("x,".to_string()),
                        JsonValue::String("y".to_string()),
                    ]
                );
            }
            other => panic!("expected array for the key, got {:?}", other),
        },
        other => panic!("expected object, got {:?}", other),
    }
}

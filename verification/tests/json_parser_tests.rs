use gasp::json_value::{obj_get, JsonError, JsonValue, Number};
use gasp::json_parser::{Parser, StreamParser};

fn get<'a>(m: &'a Vec<(String, JsonValue)>, k: &str) -> &'a JsonValue {
    obj_get(m, k).unwrap()
}

#[test]
fn test_stream_parser_in_chunks() {
    // opening tag + first field
    let chunk1 = r#"<User>{"name": "Al""#;
    // rest of the object plus closing tag and extra chatter
    let chunk2 = r#", "age": 30}</User> blah blah"#;

    let mut sp = StreamParser::default();

    // first chunk
    let part1 = sp.step(chunk1).expect("stream step 1 failed");
    assert!(!sp.is_done(), "should not be done after first chunk");

    // We expect a partial with only the first key.
    match part1 {
        Some(JsonValue::Object(ref m)) => {
            assert_eq!(m.len(), 1);
            assert_eq!(get(m, "name"), &JsonValue::String(String::from("Al")));
        }
        _ => panic!("expected first partial object"),
    }

    // second chunk
    let part2 = sp.step(chunk2).expect("stream step 2 failed");
    assert!(sp.is_done(), "parser should be done after close tag");

    // Final value must contain both fields.
    if let JsonValue::Object(ref m) = part2.unwrap() {
        assert_eq!(get(m, "name"), &JsonValue::String("Al".into()));
        assert_eq!(get(m, "age"), &JsonValue::Number(Number::Integer(30)));
    } else {
        panic!("expected inner object");
    }

    // Further calls after done yield None.
    assert!(sp.step("").unwrap().is_none());
}

#[test]
fn test_stream_parser_in_many_chunks() {
    // <User>{"name": "Al", "age": 30}</User>
    let chunks = [
        r#"<User>{"na"#,        // inside key
        r#"me": "Al"#,          // finishes key + value + comma
        r#"die", "#,            // comma + space
        r#" "age": "#,          // key + colon (value incomplete)
        r#"3"#,                 // number split in the middle
        r#"0}</User> garbage"#, // rest of value + close tag + trailing text
    ];

    let mut sp = StreamParser::default();
    let mut snapshot = None;

    for (i, slice) in chunks.iter().enumerate() {
        snapshot = sp.step(slice).expect("stream step failed");

        // we should only be 'done' after the last chunk
        assert_eq!(sp.is_done(), i == chunks.len() - 1);

        match (i, &snapshot) {
            (0, Some(JsonValue::Object(m))) => {
                assert_eq!(m.len(), 1, "Chunk 0: Expected 1 key");
                assert_eq!(
                    get(m, "na"),
                    &JsonValue::String("".into()),
                    "Chunk 0: Key 'na' should have empty string value"
                );
            }
            (1, Some(JsonValue::Object(m))) => {
                assert_eq!(m.len(), 1, "Chunk 1: Expected 1 key");
                assert_eq!(
                    get(m, "name"),
                    &JsonValue::String("Al".into()),
                    "Chunk 1: Value for 'name' should be 'Al'"
                );
            }
            (2, Some(JsonValue::Object(m))) => {
                assert_eq!(m.len(), 1, "Chunk 2: Expected 1 key");
                assert_eq!(
                    get(m, "name"),
                    &JsonValue::String("Aldie".into()),
                    "Chunk 2: Value for 'name' should be 'Aldie'"
                );
            }
            (3, Some(JsonValue::Object(m))) => {
                assert_eq!(m.len(), 1, "Chunk 3: Expected 1 key (only complete pairs)");
                assert_eq!(
                    get(m, "name"),
                    &JsonValue::String("Aldie".into()),
                    "Chunk 3: Value for 'name' should be 'Aldie'"
                );
            }
            (4, Some(JsonValue::Object(m))) => {
                assert_eq!(m.len(), 2, "Chunk 4: Expected 2 keys");
                assert_eq!(
                    get(m, "name"),
                    &JsonValue::String("Aldie".into()),
                    "Chunk 4: Value for 'name' should be 'Aldie'"
                );
                assert_eq!(
                    get(m, "age"),
                    &JsonValue::String("3".into()),
                    "Chunk 4: Value for 'age' should be '3'"
                );
            }
            (5, Some(JsonValue::Object(m))) => {
                assert_eq!(m.len(), 2, "Chunk 5: Expected 2 keys");
                assert_eq!(
                    get(m, "name"),
                    &JsonValue::String("Aldie".into()),
                    "Chunk 5: Value for 'name' should be 'Aldie'"
                );
                assert_eq!(
                    get(m, "age"),
                    &JsonValue::Number(Number::Integer(30)),
                    "Chunk 5: Value for 'age' should be 30"
                );
            }
            _ => panic!("unexpected snapshot at chunk {}: {:?}", i, snapshot),
        }
    }

    // further calls after done should yield None
    assert!(sp.step("").unwrap().is_none());
}

fn run(chunks: &[&str]) -> JsonValue {
    let mut sp = StreamParser::default();
    let mut last = None;

    for (i, part) in chunks.iter().enumerate() {
        last = sp.step(part).expect("stream step failed");
        assert_eq!(sp.is_done(), i == chunks.len() - 1);
    }
    last.expect("no final value produced")
}

fn obj(entries: Vec<(&str, JsonValue)>) -> JsonValue {
    JsonValue::Object(
        entries
            .into_iter()
            .map(|(k, v)| (k.to_string(), v))
            .collect(),
    )
}

#[test]
fn test_torture_the_poor_stream_parser() {
    // 1. {"name":"Hello World!"}
    let case01 = [
        r#"<Msg>{"na"#,
        r#"me": "H"#,
        r#"el"#,
        r#"lo"#,
        r#" Wo"#,
        r#"rl"#,
        r#"d!"#,
        r#""} </Msg>"#,
    ];
    let exp01 = obj(vec![("name", JsonValue::String("Hello World!".into()))]);
    assert_eq!(run(&case01), exp01);

    // 2. {"glyph":"☃"}   (split in the middle of a \uXXXX escape)
    let case02 = [r#"<E>{"glyph":"\u"#, r#"26"#, r#"03"}"#, r#"</E>"#];
    let exp02 = obj(vec![("glyph", JsonValue::String("\u{2603}".into()))]);
    assert_eq!(run(&case02), exp02);

    // 3. [123.45, -0.7, 6e-1]   (numbers broken around '.' and 'e')
    let case03 = [
        r#"<N>[1"#, r#"23"#, r#".4"#, r#"5,"#, r#"-"#, r#"0."#, r#"7,"#, r#"6e"#, r#"-"#,
        r#"1"#, r#"]</N>"#,
    ];
    let exp03 = JsonValue::Array(vec![
        JsonValue::Number(Number::Float("123.45".into())),
        JsonValue::Number(Number::Float("-0.7".into())),
        JsonValue::Number(Number::Float("6e-1".into())),
    ]);
    let got03 = run(&case03);
    assert_eq!(got03, exp03);
    // the kept texts denote exactly the binary values of the original run
    if let JsonValue::Array(items) = &got03 {
        let floats: Vec<f64> = items
            .iter()
            .map(|v| match v {
                JsonValue::Number(Number::Float(s)) => s.parse::<f64>().unwrap(),
                _ => panic!("expected float"),
            })
            .collect();
        assert_eq!(floats, vec![123.45, -0.7, 0.6]);
    } else {
        panic!("expected array");
    }

    // 4. {"user":{"name":"Ali"},"roles":["admin","editor"]}
    let case04 = [
        r#"<Doc>{"user":{"na"#,
        r#"me":"A"#,
        r#"li"},""#,
        r#"roles":["ad"#,
        r#"min","ed"#,
        r#"itor"]}"#,
        r#"</Doc>"#,
    ];
    let exp04 = obj(vec![
        ("user", obj(vec![("name", JsonValue::String("Ali".into()))])),
        (
            "roles",
            JsonValue::Array(vec![
                JsonValue::String("admin".into()),
                JsonValue::String("editor".into()),
            ]),
        ),
    ]);
    assert_eq!(run(&case04), exp04);

    // 5. [true,false,null]   (keywords split mid-token)
    let case05 = [r#"<Flags>[tr"#, r#"ue, fal"#, r#"se, n"#, r#"ull]</Flags>"#];
    let exp05 = JsonValue::Array(vec![
        JsonValue::Boolean(true),
        JsonValue::Boolean(false),
        JsonValue::Null,
    ]);
    assert_eq!(run(&case05), exp05);

    // 6. [[[]]]   (each bracket its own slice)
    let case06 = [r#"<Nest>["#, r#"["#, r#"["#, r#"]"#, r#"]"#, r#"]</Nest>"#];
    let exp06 = JsonValue::Array(vec![JsonValue::Array(vec![JsonValue::Array(vec![])])]);
    assert_eq!(run(&case06), exp06);

    // 7. {"v":12e-3}  == 0.012
    let case07 = [r#"<Sci>{"v":1"#, r#"2e"#, r#"-"#, r#"3}</Sci>"#];
    let exp07 = obj(vec![("v", JsonValue::Number(Number::Float("12e-3".into())))]);
    let got07 = run(&case07);
    assert_eq!(got07, exp07);
    if let JsonValue::Object(m) = &got07 {
        match get(m, "v") {
            JsonValue::Number(Number::Float(s)) => {
                assert_eq!(s.parse::<f64>().unwrap(), 0.012);
            }
            _ => panic!("expected float"),
        }
    }

    // 8. {enabled:true, level:"debug"}   (unquoted identifiers split)
    let case08 = [
        r#"<Cfg>{ena"#,
        r#"bled: t"#,
        r#"rue, le"#,
        r#"vel: deb"#,
        r#"ug}</Cfg>"#,
    ];
    let exp08 = obj(vec![
        ("enabled", JsonValue::Boolean(true)),
        ("level", JsonValue::String("debug".into())),
    ]);
    assert_eq!(run(&case08), exp08);

    // 9. {"a":1,"b":2}  (trailing comma arrives first)
    let case09 = [r#"<Obj>{"a":1,"#, r#" "b":2,"#, r#"}</Obj>"#];
    let exp09 = obj(vec![
        ("a", JsonValue::Number(Number::Integer(1))),
        ("b", JsonValue::Number(Number::Integer(2))),
    ]);
    assert_eq!(run(&case09), exp09);

    // 10. mixture of everything
    let case10 = [
        r#"<All>{"arr":["#,
        r#"hi","#,
        r#" ","#,
        r#"th"#,
        r#"ere"#,
        r#"!",", 4"#,
        r#"2, nu"#,
        r#"ll],"#,
        r#" obj":{"#,
        r#"key":f"#,
        r#"alse}} </All>"#,
    ];
    let exp10 = obj(vec![
        (
            "arr",
            JsonValue::Array(vec![
                JsonValue::String("hi".into()),
                JsonValue::String("there!".into()),
                JsonValue::Number(Number::Integer(42)),
                JsonValue::Null,
            ]),
        ),
        ("obj", obj(vec![("key", JsonValue::Boolean(false))])),
    ]);
    assert_eq!(run(&case10), exp10);
}

#[test]
fn test_implicit_arrays() {
    // Test comma-separated
    let input = r#"{"message": 123},{"code": 404}"#;
    let mut parser = Parser::default();
    match parser.parse(input) {
        Ok(JsonValue::Array(arr)) => {
            assert_eq!(arr.len(), 2);
            match &arr[0] {
                JsonValue::Object(o) => assert_eq!(
                    get(o, "message"),
                    &JsonValue::Number(Number::Integer(123))
                ),
                _ => panic!("Expected first element to be object"),
            }
            match &arr[1] {
                JsonValue::Object(o) => {
                    assert_eq!(get(o, "code"), &JsonValue::Number(Number::Integer(404)))
                }
                _ => panic!("Expected second element to be object"),
            }
        }
        _ => panic!("Expected array"),
    }

    // Test space-separated
    let input = r#"{"message": 123} {"code": 404}"#;
    let mut parser = Parser::default();
    match parser.parse(input) {
        Ok(JsonValue::Array(arr)) => {
            assert_eq!(arr.len(), 2);
            match &arr[0] {
                JsonValue::Object(o) => assert_eq!(
                    get(o, "message"),
                    &JsonValue::Number(Number::Integer(123))
                ),
                _ => panic!("Expected first element to be object"),
            }
            match &arr[1] {
                JsonValue::Object(o) => {
                    assert_eq!(get(o, "code"), &JsonValue::Number(Number::Integer(404)))
                }
                _ => panic!("Expected second element to be object"),
            }
        }
        _ => panic!("Expected array"),
    }

    // Test newline-separated
    let input = "{\"message\": 123}\n    {\"code\": 404}";
    let mut parser = Parser::default();
    match parser.parse(input) {
        Ok(JsonValue::Array(arr)) => {
            assert_eq!(arr.len(), 2);
            match &arr[0] {
                JsonValue::Object(o) => assert_eq!(
                    get(o, "message"),
                    &JsonValue::Number(Number::Integer(123))
                ),
                _ => panic!("Expected first element to be object"),
            }
            match &arr[1] {
                JsonValue::Object(o) => {
                    assert_eq!(get(o, "code"), &JsonValue::Number(Number::Integer(404)))
                }
                _ => panic!("Expected second element to be object"),
            }
        }
        _ => panic!("Expected array"),
    }

    // Test no separation
    let input = r#"{"message": 123}{"code": 404}"#;
    let mut parser = Parser::default();
    match parser.parse(input) {
        Ok(JsonValue::Array(arr)) => {
            assert_eq!(arr.len(), 2);
            match &arr[0] {
                JsonValue::Object(o) => assert_eq!(
                    get(o, "message"),
                    &JsonValue::Number(Number::Integer(123))
                ),
                _ => panic!("Expected first element to be object"),
            }
            match &arr[1] {
                JsonValue::Object(o) => {
                    assert_eq!(get(o, "code"), &JsonValue::Number(Number::Integer(404)))
                }
                _ => panic!("Expected second element to be object"),
            }
        }
        _ => panic!("Expected array"),
    }
}

#[test]
fn test_simple_string() {
    let input = r#""hello world""#;
    let mut parser = Parser::default();
    match parser.parse(input) {
        Ok(JsonValue::String(s)) => assert_eq!(s, "hello world"),
        _ => panic!("Expected string value"),
    }
}

#[test]
fn test_string_escapes() {
    let input = r#""hello\nworld\t\"quote\"""#;
    let mut parser = Parser::default();
    match parser.parse(input) {
        Ok(JsonValue::String(s)) => assert_eq!(s, "hello\nworld\t\"quote\""),
        _ => panic!("Expected string value"),
    }
}

#[test]
fn test_simple_number() {
    let input = "42";
    let mut parser = Parser::default();
    match parser.parse(input) {
        Ok(JsonValue::Number(Number::Integer(n))) => assert_eq!(n, 42),
        _ => panic!("Expected integer value"),
    }
}

#[test]
fn test_float_number() {
    let input = "42.5";
    let mut parser = Parser::default();
    match parser.parse(input) {
        Ok(JsonValue::Number(Number::Float(n))) => assert_eq!(n.parse::<f64>().unwrap(), 42.5),
        _ => panic!("Expected float value"),
    }
}

#[test]
fn test_simple_object() {
    let input = r#"{"key": "value"}"#;
    let mut parser = Parser::default();
    match parser.parse(input) {
        Ok(JsonValue::Object(map)) => {
            assert_eq!(map.len(), 1);
            match obj_get(&map, "key") {
                Some(JsonValue::String(s)) => assert_eq!(s, "value"),
                _ => panic!("Expected string value"),
            }
        }
        _ => panic!("Expected object"),
    }
}

#[test]
fn test_simple_array() {
    let input = r#"[1, 2, 3]"#;
    let mut parser = Parser::default();
    match parser.parse(input) {
        Ok(JsonValue::Array(arr)) => {
            assert_eq!(arr.len(), 3);
            match &arr[0] {
                JsonValue::Number(Number::Integer(n)) => assert_eq!(*n, 1),
                _ => panic!("Expected integer"),
            }
        }
        _ => panic!("Expected array"),
    }
}

#[test]
fn test_nested_structure() {
    let input = r#"
       {
           "name": "test",
           "numbers": [1, 2, 3],
           "object": {
               "nested": true,
               "null_value": null
           }
       }"#;
    let mut parser = Parser::default();
    match parser.parse(input) {
        Ok(JsonValue::Object(map)) => {
            assert_eq!(map.len(), 3);
            match obj_get(&map, "name") {
                Some(JsonValue::String(s)) => assert_eq!(s, "test"),
                _ => panic!("Expected string for name"),
            }
            match obj_get(&map, "numbers") {
                Some(JsonValue::Array(arr)) => assert_eq!(arr.len(), 3),
                _ => panic!("Expected array for numbers"),
            }
            match obj_get(&map, "object") {
                Some(JsonValue::Object(o)) => {
                    assert_eq!(o.len(), 2);
                    assert!(matches!(obj_get(o, "nested"), Some(JsonValue::Boolean(true))));
                    assert!(matches!(obj_get(o, "null_value"), Some(JsonValue::Null)));
                }
                _ => panic!("Expected nested object"),
            }
        }
        _ => panic!("Expected object"),
    }
}

#[test]
fn test_error_cases() {
    let cases = vec![("{true:1}", JsonError::InvalidKey)];

    for (input, expected_err) in cases {
        let mut parser = Parser::default();
        match parser.parse(input) {
            Err(e) => assert_eq!(e, expected_err),
            Ok(_) => panic!("Expected error for input: {}", input),
        }
    }
}

#[test]
fn test_unquoted_keys() {
    let input = r#"{
            name: "John",
            age: 30,
            city: "New York"
        }"#;
    let mut parser = Parser::default();
    match parser.parse(input) {
        Ok(JsonValue::Object(map)) => {
            assert_eq!(map.len(), 3);
            assert_eq!(get(&map, "name").as_string().unwrap(), "John");
            match get(&map, "age") {
                JsonValue::Number(Number::Integer(n)) => assert_eq!(*n, 30),
                _ => panic!("Expected integer for age"),
            }
        }
        _ => panic!("Expected object"),
    }
}

#[test]
fn test_single_quotes() {
    let input = r#"{
            'name': 'John',
            'nested': {'key': 'value'}
        }"#;
    let mut parser = Parser::default();
    match parser.parse(input) {
        Ok(JsonValue::Object(map)) => {
            assert_eq!(map.len(), 2);
            assert_eq!(get(&map, "name").as_string().unwrap(), "John");
            match get(&map, "nested") {
                JsonValue::Object(nested) => {
                    assert_eq!(get(nested, "key").as_string().unwrap(), "value");
                }
                _ => panic!("Expected nested object"),
            }
        }
        _ => panic!("Expected object"),
    }
}

#[test]
fn test_trailing_commas() {
    let input = r#"{
            "array": [1, 2, 3,],
            "object": {
                "key": "value",
            },
        }"#;
    let mut parser = Parser::default();
    match parser.parse(input) {
        Ok(JsonValue::Object(map)) => {
            assert_eq!(map.len(), 2);
            match get(&map, "array") {
                JsonValue::Array(arr) => assert_eq!(arr.len(), 3),
                _ => panic!("Expected array"),
            }
            match get(&map, "object") {
                JsonValue::Object(o) => assert_eq!(o.len(), 1),
                _ => panic!("Expected nested object"),
            }
        }
        _ => panic!("Expected object"),
    }
}

#[test]
fn test_unquoted_strings() {
    let input = r#"{
            "name": John,
            "status": active,
            "type": user
        }"#;
    let mut parser = Parser::default();
    match parser.parse(input) {
        Ok(JsonValue::Object(map)) => {
            assert_eq!(map.len(), 3);
            assert_eq!(get(&map, "name").as_string().unwrap(), "John");
            assert_eq!(get(&map, "status").as_string().unwrap(), "active");
            assert_eq!(get(&map, "type").as_string().unwrap(), "user");
        }
        _ => panic!("Expected object"),
    }
}

#[test]
fn test_malformed_array() {
    let input = "{\"message\": 123},\n            {\"code\": \"404\", \"details\": \"error\"}";
    let mut parser = Parser::default();
    match parser.parse(input) {
        Ok(JsonValue::Array(arr)) => {
            assert_eq!(arr.len(), 2);
            match &arr[0] {
                JsonValue::Object(o) => {
                    assert!(obj_get(o, "message").is_some());
                }
                _ => panic!("Expected first element to be object"),
            }
            match &arr[1] {
                JsonValue::Object(o) => {
                    assert!(obj_get(o, "code").is_some());
                    assert!(obj_get(o, "details").is_some());
                }
                _ => panic!("Expected second element to be object"),
            }
        }
        _ => panic!("Expected array"),
    }
}

#[test]
fn test_mixed_recovery() {
    let input = r#"{
            name: 'John',
            age: 30,
            hobbies: [coding, gaming, reading,],
            address: {
                city: New York,
                country: USA,
            },
        }"#;
    let mut parser = Parser::default();
    match parser.parse(input) {
        Ok(JsonValue::Object(map)) => {
            assert_eq!(map.len(), 4);
            assert_eq!(get(&map, "name").as_string().unwrap(), "John");
            match get(&map, "age") {
                JsonValue::Number(Number::Integer(n)) => assert_eq!(*n, 30),
                _ => panic!("Expected integer for age"),
            }
            match get(&map, "hobbies") {
                JsonValue::Array(arr) => {
                    assert_eq!(arr.len(), 3);
                    assert_eq!(arr[0].as_string().unwrap(), "coding");
                    assert_eq!(arr[1].as_string().unwrap(), "gaming");
                    assert_eq!(arr[2].as_string().unwrap(), "reading");
                }
                _ => panic!("Expected array for hobbies"),
            }
            match get(&map, "address") {
                JsonValue::Object(addr) => {
                    assert_eq!(addr.len(), 2);
                    assert_eq!(get(addr, "city").as_string().unwrap(), "New York");
                    assert_eq!(get(addr, "country").as_string().unwrap(), "USA");
                }
                _ => panic!("Expected object for address"),
            }
        }
        _ => panic!("Expected object"),
    }
}

#[test]
fn test_bad_array_recovery() {
    let mut parser = StreamParser::default();
    let result = "\n        <action>\n            {\"message\": 123},\n            {\"code\": \"404\", \"details\": \"error\"}\n</action>\n        ";

    let bytes = result.as_bytes();

    let mut i = 0;
    while i < bytes.len() {
        let end = usize::min(i + 1, bytes.len());
        let chunk = std::str::from_utf8(&bytes[i..end]).unwrap();
        let _ = parser.step(chunk).unwrap();
        i = end;
    }
    assert!(parser.is_done(), "stream parser did not finish");
}

#[test]
fn test_llm_token_fragmentation() {
    // This test replicates the exact token fragmentation patterns seen in
    // LLM outputs, where tags and JSON elements split in unusual places.
    let mut parser = StreamParser::new(vec!["ReportSubsystems".to_string()], vec![]);

    let fragments = [
        // Opening tag split across tokens
        "<Report",
        "Sub",
        "systems>",
        // JSON content split across tokens
        "{",
        "  \"",
        "subsystems",
        "\":",
        " [",
        "    {",
        "      \"",
        "name",
        "\": \"",
        "Core Engine",
        "\",",
        "      \"",
        "files",
        "\": [",
        "        \"",
        "packages/core/src/",
        "\"",
        "      ]",
        "    }",
        "  ]",
        "}",
        // Closing tag split across tokens
        "</Report",
        "Sub",
        "systems>",
    ];

    let mut results = Vec::new();

    for fragment in fragments.iter() {
        if let Some(result) = parser.step(fragment).unwrap() {
            results.push(result);
        } else {
            println!("  No result from this fragment");
        }
    }

    assert!(parser.is_done(), "Parser did not complete processing");
    assert!(
        !results.is_empty(),
        "No results were produced from the fragments"
    );

    let final_result = results.last().unwrap();
    if let JsonValue::Object(map) = final_result {
        assert!(
            obj_get(map, "subsystems").is_some(),
            "Missing 'subsystems' key in result"
        );

        if let Some(JsonValue::Array(subsystems)) = obj_get(map, "subsystems") {
            assert!(!subsystems.is_empty(), "Subsystems array is empty");

            if let Some(JsonValue::Object(subsystem)) = subsystems.first() {
                assert!(
                    obj_get(subsystem, "name").is_some(),
                    "Subsystem missing 'name' key"
                );
                assert!(
                    obj_get(subsystem, "files").is_some(),
                    "Subsystem missing 'files' key"
                );
            } else {
                panic!("First subsystem is not an object");
            }
        } else {
            panic!("'subsystems' is not an array");
        }
    } else {
        panic!("Expected Object result, got: {:?}", final_result);
    }
}

#[test]
fn test_extreme_tag_fragmentation() {
    // An even more extreme fragmentation pattern where the opening tag is
    // broken into individual parts with spaces.
    let mut parser = StreamParser::new(vec!["ReportSubsystems".to_string()], vec![]);

    println!("\nTesting extreme tag fragmentation - single character tokens:");

    let fragments = [
        // Opening tag completely broken up
        " <",
        "ReportSub",
        "systems> tag",
        // Simple JSON content
        "{\"test\": true}</ReportSubsystems>",
    ];

    for fragment in fragments.iter() {
        println!("LLM output: {}", fragment);
        let result = parser.step(fragment).unwrap();
        if result.is_some() {
            println!("Parser result: {:?}", result.unwrap());
        } else {
            println!("Parser result: None");
        }
    }

    assert!(
        parser.is_done(),
        "Parser should be done after all fragments"
    );
}


use toon::{encode, parse, parse_value, ToonValue};

// ============================================================================
// SECTION 1: BASIC PARSING TESTS
// ============================================================================

#[test]
fn test_decode_simple() {
    let input = "user:\n  id: 123\n  email: ada@example.com";
    let val = parse(input).unwrap();

    if let ToonValue::Object(m) = val {
        assert_eq!(m.len(), 1);
        assert_eq!(m[0].0, "user");
        if let ToonValue::Object(user) = &m[0].1 {
            assert_eq!(user[0].0, "id");
            assert_eq!(user[0].1, ToonValue::Int(123));
            assert_eq!(user[1].0, "email");
            assert_eq!(user[1].1, ToonValue::Str("ada@example.com".to_string()));
        } else {
            panic!("Expected user map");
        }
    } else {
        panic!("Expected map");
    }
}

#[test]
fn test_parse_primitives() {
    assert_eq!(parse_value("null"), ToonValue::Null);
    assert_eq!(parse_value("true"), ToonValue::Bool(true));
    assert_eq!(parse_value("false"), ToonValue::Bool(false));
    assert_eq!(parse_value("42"), ToonValue::Int(42));
    assert_eq!(parse_value("-99"), ToonValue::Int(-99));
    assert_eq!(parse_value("3.14"), ToonValue::Float((3.14f64).to_string()));
    assert_eq!(parse_value("hello"), ToonValue::Str("hello".to_string()));
}

#[test]
fn test_parse_quoted_strings() {
    assert_eq!(
        parse_value("\"hello world\""),
        ToonValue::Str("hello world".to_string())
    );
    assert_eq!(
        parse_value("\"string with \\\"quotes\\\"\""),
        ToonValue::Str("string with \"quotes\"".to_string())
    );
    assert_eq!(
        parse_value("\"path\\\\to\\\\file\""),
        ToonValue::Str("path\\to\\file".to_string())
    );
    assert_eq!(
        parse_value("\"Line 1\\nLine 2\""),
        ToonValue::Str("Line 1\nLine 2".to_string())
    );
}

#[test]
fn test_parse_inline_arrays() {
    // Simple numeric array
    let result = parse_value("1, 2, 3, 4, 5");
    if let ToonValue::Array(items) = result {
        assert_eq!(items.len(), 5);
        assert_eq!(items[0], ToonValue::Int(1));
        assert_eq!(items[4], ToonValue::Int(5));
    } else {
        panic!("Expected array");
    }

    // Mixed types
    let result = parse_value("42, hello, true");
    if let ToonValue::Array(items) = result {
        assert_eq!(items.len(), 3);
        assert_eq!(items[0], ToonValue::Int(42));
        assert_eq!(items[1], ToonValue::Str("hello".to_string()));
        assert_eq!(items[2], ToonValue::Bool(true));
    } else {
        panic!("Expected array");
    }
}

#[test]
fn test_parse_deep_nesting() {
    let input = "l1:\n  l2:\n    l3:\n      l4:\n        l5: value";
    let val = parse(input).unwrap();

    // Navigate through nested structure
    if let ToonValue::Object(m) = val {
        assert_eq!(m.len(), 1);
        if let ToonValue::Object(l2) = &m[0].1 {
            if let ToonValue::Object(l3) = &l2[0].1 {
                if let ToonValue::Object(l4) = &l3[0].1 {
                    if let ToonValue::Object(l5) = &l4[0].1 {
                        assert_eq!(l5[0].0, "l5");
                        assert_eq!(l5[0].1, ToonValue::Str("value".to_string()));
                    } else {
                        panic!("Expected l4 to have map");
                    }
                } else {
                    panic!("Expected l3 to have map");
                }
            } else {
                panic!("Expected l2 to have map");
            }
        } else {
            panic!("Expected l1 to have map");
        }
    } else {
        panic!("Expected root map");
    }
}

#[test]
fn test_parse_multiple_keys() {
    let input = "name: Alice\nage: 30\nemail: alice@example.com";
    let val = parse(input).unwrap();

    if let ToonValue::Object(m) = val {
        assert_eq!(m.len(), 3);
        assert_eq!(m[0].0, "name");
        assert_eq!(m[0].1, ToonValue::Str("Alice".to_string()));
        assert_eq!(m[1].0, "age");
        assert_eq!(m[1].1, ToonValue::Int(30));
        assert_eq!(m[2].0, "email");
        assert_eq!(m[2].1, ToonValue::Str("alice@example.com".to_string()));
    } else {
        panic!("Expected map");
    }
}

// ============================================================================
// SECTION 2: ENCODING TESTS
// ============================================================================

#[test]
fn test_encode_simple() {
    let mut user_map = Vec::new();
    user_map.push(("id".to_string(), ToonValue::Int(123)));
    user_map.push((
        "email".to_string(),
        ToonValue::Str("ada@example.com".to_string()),
    ));

    let mut root_map = Vec::new();
    root_map.push(("user".to_string(), ToonValue::Object(user_map)));

    let val = ToonValue::Object(root_map);
    let encoded = encode(&val);

    let expected = "user:\n  id: 123\n  email: ada@example.com";
    assert_eq!(encoded, expected);
}

#[test]
fn test_encode_primitives() {
    assert_eq!(encode(&ToonValue::Null), "null");
    assert_eq!(encode(&ToonValue::Bool(true)), "true");
    assert_eq!(encode(&ToonValue::Bool(false)), "false");
    assert_eq!(encode(&ToonValue::Int(42)), "42");
    assert_eq!(encode(&ToonValue::Int(-99)), "-99");
    assert_eq!(encode(&ToonValue::Float((3.14f64).to_string())), "3.14");
    assert_eq!(encode(&ToonValue::Str("hello".to_string())), "hello");
}

#[test]
fn test_encode_quoted_strings() {
    // Strings with newlines should be quoted
    let val = ToonValue::Str("Line 1\nLine 2".to_string());
    let encoded = encode(&val);
    assert!(encoded.contains('"') && encoded.contains("\\n"));

    // Strings with colons should be quoted
    let val = ToonValue::Str("key: value".to_string());
    let encoded = encode(&val);
    assert!(encoded.contains('"'));

    // Strings with quotes should be escaped
    let val = ToonValue::Str("He said \"hello\"".to_string());
    let encoded = encode(&val);
    assert!(encoded.contains("\\\""));
}

#[test]
fn test_encode_arrays() {
    let items = vec![ToonValue::Int(1), ToonValue::Int(2), ToonValue::Int(3)];
    let val = ToonValue::Array(items);
    let encoded = encode(&val);
    assert!(encoded.contains("1, 2, 3"));
}

#[test]
fn test_encode_mixed_array_types() {
    let items = vec![
        ToonValue::Int(42),
        ToonValue::Str("hello".to_string()),
        ToonValue::Bool(true),
        ToonValue::Null,
    ];
    let val = ToonValue::Array(items);
    let encoded = encode(&val);
    assert!(encoded.contains("42"));
    assert!(encoded.contains("hello"));
    assert!(encoded.contains("true"));
    assert!(encoded.contains("null"));
}

// ============================================================================
// SECTION 3: ROUNDTRIP TESTS (ENCODE -> DECODE CONSISTENCY)
// ============================================================================

#[test]
fn test_roundtrip_simple_map() {
    let input = "user:\n  id: 123\n  email: ada@example.com";
    let parsed = parse(input).unwrap();
    let encoded = encode(&parsed);
    let reparsed = parse(&encoded).unwrap();
    assert_eq!(parsed, reparsed);
}

#[test]
fn test_roundtrip_nested_structure() {
    let input = "company:\n  name: TechCorp\n  departments:\n    engineering:\n      employees: 10\n    sales:\n      employees: 5";
    let parsed = parse(input).unwrap();
    let encoded = encode(&parsed);
    let reparsed = parse(&encoded).unwrap();
    assert_eq!(parsed, reparsed);
}

#[test]
fn test_roundtrip_arrays() {
    let items = vec![ToonValue::Int(1), ToonValue::Int(2), ToonValue::Int(3)];
    let expected = vec![ToonValue::Int(1), ToonValue::Int(2), ToonValue::Int(3)];
    let val = ToonValue::Array(items);
    let encoded = encode(&val);
    let decoded = parse(&encoded).unwrap();
    assert_eq!(ToonValue::Array(expected), decoded);
}

#[test]
fn test_full_example() {
    let input = "user:\n  id: 123\n  email: ada@example.com\n  metadata:\n    active: true\n    score: 9.5";
    let val = parse(input).unwrap();
    let encoded = encode(&val);
    assert_eq!(encoded, input);
}

// ============================================================================
// SECTION 4: EDGE CASES AND SPECIAL CHARACTERS
// ============================================================================

#[test]
fn test_empty_string_key() {
    let mut map = Vec::new();
    map.push(("empty_value".to_string(), ToonValue::Str("".to_string())));
    let val = ToonValue::Object(map);
    let encoded = encode(&val);
    assert!(encoded.contains("empty_value:") && encoded.contains("\"\""));
}

#[test]
fn test_special_characters_in_string() {
    let test_strings = vec!["!@#$%^&*()", "path/to/file"];

    for test_str in test_strings {
        let val = ToonValue::Str(test_str.to_string());
        let encoded = encode(&val);
        let decoded = parse(&encoded).unwrap();

        if let ToonValue::Str(decoded_str) = decoded {
            assert_eq!(test_str, decoded_str, "Failed roundtrip for: {}", test_str);
        } else {
            panic!("Expected string, got {:?}", decoded);
        }
    }
}

#[test]
fn test_unicode_characters() {
    let unicode_strings = vec!["Hello 🌍", "你好世界", "مرحبا بالعالم", "Привет мир"];

    for test_str in unicode_strings {
        let val = ToonValue::Str(test_str.to_string());
        let encoded = encode(&val);
        let decoded = parse(&encoded).unwrap();

        if let ToonValue::Str(decoded_str) = decoded {
            assert_eq!(test_str, decoded_str, "Failed roundtrip for: {}", test_str);
        } else {
            panic!("Expected string, got {:?}", decoded);
        }
    }
}

#[test]
fn test_large_integers() {
    let large_int = i64::MAX;
    let val = ToonValue::Int(large_int);
    let encoded = encode(&val);
    let decoded = parse(&encoded).unwrap();
    assert_eq!(val, decoded);

    let neg_large_int = i64::MIN;
    let val = ToonValue::Int(neg_large_int);
    let encoded = encode(&val);
    let decoded = parse(&encoded).unwrap();
    assert_eq!(val, decoded);
}

#[test]
fn test_float_precision() {
    let float_val = 3.141592653589793f64;
    let val = ToonValue::Float(float_val.to_string());
    let encoded = encode(&val);
    let decoded = parse(&encoded).unwrap();
    if let ToonValue::Float(f) = decoded {
        let reread: f64 = f.parse().unwrap();
        assert!((float_val - reread).abs() < 0.0001);
    } else {
        panic!("Expected float");
    }
}

#[test]
fn test_parse_empty_input() {
    let result = parse("");
    assert_eq!(result.unwrap(), ToonValue::Null);
}

#[test]
fn test_map_with_many_entries() {
    let mut map = Vec::new();
    for i in 1..=50 {
        map.push((format!("key{}", i), ToonValue::Int(i as i64)));
    }
    let val = ToonValue::Object(map);
    let encoded = encode(&val);
    let decoded = parse(&encoded).unwrap();
    assert_eq!(val, decoded);
}

#[test]
fn test_deeply_nested_arrays() {
    let inner = vec![ToonValue::Int(1), ToonValue::Int(2)];
    let middle = vec![ToonValue::Array(inner)];
    let outer = vec![ToonValue::Array(middle)];
    let val = ToonValue::Array(outer);

    let encoded = encode(&val);
    // Verify nested arrays are encoded correctly
    assert!(encoded.contains("["));
}

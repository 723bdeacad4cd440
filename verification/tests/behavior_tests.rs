use toon::{
    clamped_capacity, collection_to_value, encode, parse, parse_value, value_to_collection,
    value_to_string, BridgeError, HostKey, HostValue, ParseError, ToonValue,
};

// --- the empty-container convention ---

#[test]
fn test_empty_container_convention() {
    // a key line with no deeper-indented follower gets an empty map, not null
    let val = parse("tags:").unwrap();
    if let ToonValue::Object(m) = val {
        assert_eq!(m.len(), 1);
        assert_eq!(m[0].0, "tags");
        assert_eq!(m[0].1, ToonValue::Object(Vec::new()));
    } else {
        panic!("Expected map");
    }
}

// --- the depth guard ---

#[test]
fn test_parse_depth_exceeded() {
    let mut input = String::new();
    for level in 0..=101 {
        for _ in 0..level {
            input.push_str("  ");
        }
        input.push_str("a:\n");
    }
    assert_eq!(parse(&input), Err(ParseError::DepthExceeded));
}

#[test]
fn test_parse_depth_within_limit() {
    let mut input = String::new();
    for level in 0..=99 {
        for _ in 0..level {
            input.push_str("  ");
        }
        input.push_str("a:\n");
    }
    assert!(parse(&input).is_ok());
}

#[test]
fn test_encode_depth_sentinel() {
    let mut v = ToonValue::Object(vec![("leaf".to_string(), ToonValue::Int(1))]);
    for _ in 0..=101 {
        v = ToonValue::Object(vec![("a".to_string(), v)]);
    }
    let encoded = encode(&v);
    assert!(encoded.contains("[MaxDepthExceeded]"));
}

#[test]
fn test_bridge_depth_exceeded() {
    let mut h = HostValue::Int(1);
    for _ in 0..=101 {
        h = HostValue::Array(vec![(HostKey::Index(0), h)]);
    }
    assert_eq!(collection_to_value(&h), Err(BridgeError::DepthExceeded));

    let mut v = ToonValue::Int(1);
    for _ in 0..=101 {
        v = ToonValue::Array(vec![v]);
    }
    assert_eq!(value_to_collection(&v), Err(BridgeError::DepthExceeded));
}

// --- idempotent empty input ---

#[test]
fn test_blank_lines_only() {
    // lines that hold only whitespace never produce entries
    assert_eq!(parse("\n   \n\t\n").unwrap(), ToonValue::Object(Vec::new()));
}

// --- list-vs-map bridging ---

fn host_list_of_scalars() -> HostValue {
    HostValue::Array(vec![
        (HostKey::Index(0), HostValue::Int(10)),
        (HostKey::Index(1), HostValue::Str("x".to_string())),
        (HostKey::Index(2), HostValue::Bool(true)),
    ])
}

#[test]
fn test_bridge_sequential_keys_make_list() {
    let v = collection_to_value(&host_list_of_scalars()).unwrap();
    assert_eq!(
        v,
        ToonValue::Array(vec![
            ToonValue::Int(10),
            ToonValue::Str("x".to_string()),
            ToonValue::Bool(true),
        ])
    );
}

#[test]
fn test_bridge_map_value_disqualifies_list() {
    // the same sequential keys, but one entry holds a nested map: the whole
    // collection becomes a map whose keys are the positions' text
    let h = HostValue::Array(vec![
        (HostKey::Index(0), HostValue::Int(10)),
        (
            HostKey::Index(1),
            HostValue::Array(vec![(HostKey::Text("k".to_string()), HostValue::Int(5))]),
        ),
        (HostKey::Index(2), HostValue::Bool(true)),
    ]);
    let v = collection_to_value(&h).unwrap();
    if let ToonValue::Object(m) = v {
        assert_eq!(m.len(), 3);
        assert_eq!(m[0].0, "0");
        assert_eq!(m[0].1, ToonValue::Int(10));
        assert_eq!(m[1].0, "1");
        assert_eq!(
            m[1].1,
            ToonValue::Object(vec![("k".to_string(), ToonValue::Int(5))])
        );
        assert_eq!(m[2].0, "2");
        assert_eq!(m[2].1, ToonValue::Bool(true));
    } else {
        panic!("Expected map");
    }
}

#[test]
fn test_bridge_empty_collection_is_list() {
    let v = collection_to_value(&HostValue::Array(Vec::new())).unwrap();
    assert_eq!(v, ToonValue::Array(Vec::new()));
}

#[test]
fn test_bridge_gap_in_keys_makes_map() {
    let h = HostValue::Array(vec![
        (HostKey::Index(0), HostValue::Int(1)),
        (HostKey::Index(2), HostValue::Int(3)),
    ]);
    let v = collection_to_value(&h).unwrap();
    assert_eq!(
        v,
        ToonValue::Object(vec![
            ("0".to_string(), ToonValue::Int(1)),
            ("2".to_string(), ToonValue::Int(3)),
        ])
    );
}

#[test]
fn test_bridge_nested_lists_stay_lists() {
    let h = HostValue::Array(vec![
        (
            HostKey::Index(0),
            HostValue::Array(vec![(HostKey::Index(0), HostValue::Int(1))]),
        ),
        (HostKey::Index(1), HostValue::Int(2)),
    ]);
    let v = collection_to_value(&h).unwrap();
    assert_eq!(
        v,
        ToonValue::Array(vec![
            ToonValue::Array(vec![ToonValue::Int(1)]),
            ToonValue::Int(2),
        ])
    );
}

#[test]
fn test_bridge_back_to_collection() {
    // a list goes back keyed by position
    let v = ToonValue::Array(vec![ToonValue::Int(7), ToonValue::Null]);
    let h = value_to_collection(&v).unwrap();
    assert_eq!(
        h,
        HostValue::Array(vec![
            (HostKey::Index(0), HostValue::Int(7)),
            (HostKey::Index(1), HostValue::Null),
        ])
    );

    // a numeric-looking map key becomes an index, another stays a string
    let v = ToonValue::Object(vec![
        ("42".to_string(), ToonValue::Bool(true)),
        ("-3".to_string(), ToonValue::Null),
        ("name".to_string(), ToonValue::Str("a".to_string())),
        ("+5".to_string(), ToonValue::Int(1)),
    ]);
    let h = value_to_collection(&v).unwrap();
    assert_eq!(
        h,
        HostValue::Array(vec![
            (HostKey::Index(42), HostValue::Bool(true)),
            (HostKey::Index(-3), HostValue::Null),
            (HostKey::Text("name".to_string()), HostValue::Str("a".to_string())),
            // a leading plus sign does not read as numeric
            (HostKey::Text("+5".to_string()), HostValue::Int(1)),
        ])
    );
}

#[test]
fn test_bridge_nul_key_rejected() {
    let v = ToonValue::Object(vec![("a\0b".to_string(), ToonValue::Int(1))]);
    assert_eq!(value_to_collection(&v), Err(BridgeError::InvalidKeyEncoding));
}

#[test]
fn test_bridge_scalars_pass_through() {
    assert_eq!(collection_to_value(&HostValue::Null).unwrap(), ToonValue::Null);
    assert_eq!(
        collection_to_value(&HostValue::Float("2.5".to_string())).unwrap(),
        ToonValue::Float("2.5".to_string())
    );
    assert_eq!(
        value_to_collection(&ToonValue::Str("s".to_string())).unwrap(),
        HostValue::Str("s".to_string())
    );
}

// --- scalar grammar details ---

#[test]
fn test_parse_value_plus_sign_integer() {
    assert_eq!(parse_value("+7"), ToonValue::Int(7));
}

#[test]
fn test_parse_value_float_forms() {
    assert_eq!(parse_value("1e3"), ToonValue::Float("1e3".to_string()));
    assert_eq!(parse_value("-0.5"), ToonValue::Float("-0.5".to_string()));
    assert_eq!(parse_value(".5"), ToonValue::Float(".5".to_string()));
    assert_eq!(parse_value("5."), ToonValue::Float("5.".to_string()));
    assert_eq!(parse_value("inf"), ToonValue::Float("inf".to_string()));
    assert_eq!(parse_value("NaN"), ToonValue::Float("NaN".to_string()));
    // an integer too large for 64 bits still reads as a float token
    assert_eq!(
        parse_value("99999999999999999999"),
        ToonValue::Float("99999999999999999999".to_string())
    );
    // but these are not float tokens
    assert_eq!(parse_value("1e"), ToonValue::Str("1e".to_string()));
    assert_eq!(parse_value("."), ToonValue::Str(".".to_string()));
    assert_eq!(parse_value("1.2.3"), ToonValue::Str("1.2.3".to_string()));
}

#[test]
fn test_float_text_preserved() {
    // the float's textual form is its identity: encoding keeps it verbatim
    let val = parse("x: 1e3").unwrap();
    assert_eq!(encode(&val), "x: 1e3");
}

#[test]
fn test_parse_value_trims_token() {
    assert_eq!(parse_value("  42  "), ToonValue::Int(42));
}

#[test]
fn test_duplicate_keys_kept_in_order() {
    let val = parse("a: 1\na: 2").unwrap();
    assert_eq!(
        val,
        ToonValue::Object(vec![
            ("a".to_string(), ToonValue::Int(1)),
            ("a".to_string(), ToonValue::Int(2)),
        ])
    );
}

#[test]
fn test_line_without_colon_skipped() {
    let val = parse("a: 1\njust some text\nb: 2").unwrap();
    assert_eq!(
        val,
        ToonValue::Object(vec![
            ("a".to_string(), ToonValue::Int(1)),
            ("b".to_string(), ToonValue::Int(2)),
        ])
    );
}

#[test]
fn test_crlf_line_endings() {
    let val = parse("a: 1\r\nb: 2\r\n").unwrap();
    assert_eq!(
        val,
        ToonValue::Object(vec![
            ("a".to_string(), ToonValue::Int(1)),
            ("b".to_string(), ToonValue::Int(2)),
        ])
    );
}

#[test]
fn test_single_scalar_document() {
    assert_eq!(parse("123").unwrap(), ToonValue::Int(123));
    assert_eq!(parse("  hello  ").unwrap(), ToonValue::Str("hello".to_string()));
}

#[test]
fn test_value_to_string_forms() {
    // a nested list renders bracketed as an element
    let inner = ToonValue::Array(vec![ToonValue::Int(1), ToonValue::Int(2)]);
    assert_eq!(value_to_string(&inner), "[1, 2]");
    // a map cannot be carried inline
    let m = ToonValue::Object(vec![("k".to_string(), ToonValue::Int(1))]);
    assert_eq!(value_to_string(&m), "[Object]");
    // an empty string always renders quoted
    assert_eq!(value_to_string(&ToonValue::Str(String::new())), "\"\"");
    // a padded string renders quoted to keep its padding
    assert_eq!(value_to_string(&ToonValue::Str(" x".to_string())), "\" x\"");
}

#[test]
fn test_encode_list_as_map_value() {
    let v = ToonValue::Object(vec![(
        "nums".to_string(),
        ToonValue::Array(vec![ToonValue::Int(1), ToonValue::Int(2), ToonValue::Int(3)]),
    )]);
    assert_eq!(encode(&v), "nums: 1, 2, 3");
}

#[test]
fn test_clamped_capacity() {
    assert_eq!(clamped_capacity(0), 0);
    assert_eq!(clamped_capacity(17), 17);
    assert_eq!(clamped_capacity(u32::MAX as usize), u32::MAX);
}

#[test]
fn test_roundtrip_quoted_string_with_comma() {
    // inside a map a comma-bearing string survives a round trip quoted
    let v = ToonValue::Object(vec![("k".to_string(), ToonValue::Str("a,b".to_string()))]);
    let encoded = encode(&v);
    assert_eq!(encoded, "k: \"a,b\"");
    assert_eq!(parse(&encoded).unwrap(), v);
}

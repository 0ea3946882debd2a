use studio::json::Value;
use studio::json_parse::parse;

#[test]
fn roundtrip_pretty() {
    let src = r#"{"a": 1, "b": [true, null, "x\n"], "c": {"d": -2}}"#;
    let v = parse(src).unwrap();
    let pretty = v.to_json_pretty();
    let v2 = parse(&pretty).unwrap();
    assert_eq!(v, v2);
    assert_eq!(pretty, v2.to_json_pretty());
}

#[test]
fn escapes_and_unicode() {
    let v = parse(r#""aéb😀""#).unwrap();
    assert_eq!(v.as_str().unwrap(), "a\u{e9}b\u{1F600}");
    let v = parse(r#""\u0041\ud83d\ude00""#).unwrap();
    assert_eq!(v.as_str().unwrap(), "A\u{1F600}");
}

#[test]
fn integers_exact() {
    let v = parse("18446744073709551615").unwrap();
    assert_eq!(v.as_u64(), Some(u64::MAX));
    let v = parse("-5").unwrap();
    assert_eq!(v.as_u64(), None);
    // Floats are not integers for typed fields.
    let v = parse("30.0").unwrap();
    assert_eq!(v.as_u64(), None);
}

#[test]
fn trailing_garbage_rejected() {
    assert!(parse("{} x").is_err());
    assert!(parse("{").is_err());
}

#[test]
fn malformed_inputs_never_panic() {
    // Every prefix of a valid doc — Err or Ok, never panic.
    let good = r#"{"a": [1, 2.5, "x", true, null, {"b": "y"}], "c": "\u00e9"}"#;
    for i in 0..=good.len() {
        if let Some(s) = good.get(..i) {
            let _ = parse(s);
        }
    }
    for bad in [
        "", "{", "[", "\"", "\\", "{\"a\":", "[1,", "-", "1e", "1e+", "0.", ".5", "+1", "01",
        "--1", "{\"a\"}", "[1;2]", "{,}", "[,]", "\"\\u\"", "\"\\uZZZZ\"", "\"\\uD800\"",
        "\"\\uD800x\"", "\"\\uDC00\"", "\"\\x\"", "tru", "truex", "nulll", "NaN", "Infinity",
        "{\"a\":1,}", "{a:1}", "1.2.3", "1e9999", "-0", "{}", "[]", "[[[]]]",
    ] {
        let _ = parse(bad);
    }
    // Deep nesting past the depth limit must Err, not overflow the stack.
    let deep = "[".repeat(1000) + &"]".repeat(1000);
    assert!(parse(&deep).is_err());
    // Control characters inside strings.
    assert!(parse("\"\u{0007}\"").is_err());
    // Lone "-" / "+" start no valid value.
    assert!(parse("[-]").is_err());
}

#[test]
fn error_messages_carry_line_and_column() {
    let e = parse("{\n  \"a\": tru\n}").unwrap_err();
    assert_eq!(e.to_string(), "expected value at line 2 column 8");
    let e = parse("{} x").unwrap_err();
    assert_eq!(e.to_string(), "trailing characters at line 1 column 4");
    let e = parse("\"abc").unwrap_err();
    assert_eq!(e.to_string(), "unterminated string at line 1 column 5");
    let e = parse("[1,]").unwrap_err();
    assert_eq!(e.to_string(), "expected value at line 1 column 4");
}

#[test]
fn depth_limit_is_exact() {
    let ok = "[".repeat(129) + &"]".repeat(129);
    assert!(parse(&ok).is_ok());
    let too_deep = "[".repeat(130) + &"]".repeat(130);
    assert_eq!(
        parse(&too_deep).unwrap_err().to_string(),
        "recursion limit exceeded at line 1 column 130"
    );
}

#[test]
fn numbers_choose_their_kind() {
    assert!(matches!(parse("0").unwrap(), Value::UInt(0)));
    assert!(matches!(parse("-0").unwrap(), Value::Int(0)));
    assert!(matches!(parse("-9223372036854775808").unwrap(), Value::Int(i64::MIN)));
    match parse("18446744073709551616").unwrap() {
        Value::Float(t) => assert_eq!(t, "18446744073709551616"),
        other => panic!("{other:?}"),
    }
    match parse("-2.5e3").unwrap() {
        Value::Float(t) => assert_eq!(t, "-2.5e3"),
        other => panic!("{other:?}"),
    }
}

#[test]
fn writer_output_styles() {
    let v = parse(r#"{"a":[1,{"b":null}],"c":"q\"\u0001"}"#).unwrap();
    assert_eq!(v.to_json(), r#"{"a":[1,{"b":null}],"c":"q\"\u0001"}"#);
    assert_eq!(
        v.to_json_pretty(),
        "{\n  \"a\": [\n    1,\n    {\n      \"b\": null\n    }\n  ],\n  \"c\": \"q\\\"\\u0001\"\n}"
    );
    assert_eq!(parse("[]").unwrap().to_json_pretty(), "[]");
    assert_eq!(parse("{}").unwrap().to_json(), "{}");
}

#[test]
fn get_finds_first_member() {
    let v = parse(r#"{"k": 1, "k": 2, "s": "t"}"#).unwrap();
    assert_eq!(v.get("k").and_then(Value::as_u64), Some(1));
    assert_eq!(v.get("s").and_then(Value::as_str), Some("t"));
    assert!(v.get("missing").is_none());
    assert!(parse("[1]").unwrap().get("k").is_none());
    assert_eq!(parse("true").unwrap().as_bool(), Some(true));
    assert_eq!(parse("[1,2]").unwrap().as_array().map(|a| a.len()), Some(2));
    assert_eq!(v.as_object().map(|o| o.len()), Some(3));
}

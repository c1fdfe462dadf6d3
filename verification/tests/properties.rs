use toon::value::Value;
use toon::{decode_toon_to_json, encode_json_to_toon, DecodeError, DecodeOptions, EncodeOptions};

fn s(x: &str) -> Value {
    Value::Str(x.to_string())
}

fn n(x: &str) -> Value {
    Value::number(x).expect("valid number text")
}

fn obj(entries: Vec<(&str, Value)>) -> Value {
    let mut v: Vec<(String, Value)> = Vec::new();
    for (k, val) in entries {
        v.push((k.to_string(), val));
    }
    Value::Obj(v)
}

fn enc(v: &Value, opts: &EncodeOptions) -> Vec<u8> {
    encode_json_to_toon(v, opts).expect("Encode failed")
}

fn dec(b: &[u8], compact: bool) -> Value {
    decode_toon_to_json(
        b,
        &DecodeOptions {
            compact,
            strict: false,
        },
    )
    .expect("Decode failed")
}

fn compact_opts() -> EncodeOptions {
    EncodeOptions {
        compact: true,
        ..Default::default()
    }
}

#[test]
fn test_idempotent_canonicalization_text() {
    // Encoding a decoded document is byte-identical to the first encoding:
    // the unsorted object canonicalizes once and stays put.
    let value = obj(vec![
        ("zebra", n("1")),
        ("apple", n("2")),
        ("mango", obj(vec![("z", n("3")), ("a", n("4"))])),
    ]);
    let once = enc(&value, &EncodeOptions::default());
    let back = dec(&once, false);
    let twice = enc(&back, &EncodeOptions::default());
    assert_eq!(once, twice);
}

#[test]
fn test_idempotent_canonicalization_compact() {
    let value = obj(vec![("b", Value::Arr(vec![n("1"), s("x")])), ("a", Value::Null)]);
    let once = enc(&value, &compact_opts());
    let back = dec(&once, true);
    let twice = enc(&back, &compact_opts());
    assert_eq!(once, twice);
}

#[test]
fn test_tabular_matches_ordinary_decode() {
    // The tabular rendering decodes to the same value the ordinary one does.
    let value = Value::Arr(vec![
        obj(vec![("id", n("1")), ("name", s("Alice"))]),
        obj(vec![("id", n("2")), ("name", s("Bob"))]),
    ]);
    let plain = EncodeOptions::default();
    let tab = EncodeOptions {
        tabular_arrays: true,
        ..Default::default()
    };
    let a = enc(&value, &plain);
    let b = enc(&value, &tab);
    assert_ne!(a, b);
    let va = enc(&dec(&a, false), &plain);
    let vb = enc(&dec(&b, false), &plain);
    assert_eq!(va, vb);
}

#[test]
fn test_string_keyword_distinguishable() {
    // The string "true" is quoted, so it decodes as a string, not a boolean.
    let value = s("true");
    let encoded = enc(&value, &EncodeOptions::default());
    assert_eq!(encoded, b"\"true\"".to_vec());
    let decoded = dec(&encoded, false);
    assert!(matches!(decoded, Value::Str(x) if x == "true"));

    let boolean = enc(&Value::Bool(true), &EncodeOptions::default());
    let decoded_bool = dec(&boolean, false);
    assert!(matches!(decoded_bool, Value::Bool(true)));
}

#[test]
fn test_binary_truncation() {
    // Cutting a compact document anywhere before its end is reported as
    // truncated, never decoded to something else.
    let value = obj(vec![
        ("list", Value::Arr(vec![n("1"), n("2"), s("three")])),
        ("name", s("x")),
    ]);
    let encoded = enc(&value, &compact_opts());
    for cut in 1..encoded.len() {
        let r = decode_toon_to_json(
            &encoded[..cut],
            &DecodeOptions {
                compact: true,
                strict: false,
            },
        );
        assert_eq!(r.unwrap_err(), DecodeError::TruncatedBinary, "cut at {}", cut);
    }
}

#[test]
fn test_magic_detection_text_path() {
    // Text not opening with the compact magic always takes the text path.
    let text = b"{hello: world}";
    let decoded = dec(text, false);
    assert!(matches!(decoded, Value::Obj(_)));

    let bare = b"plain";
    assert!(matches!(dec(bare, false), Value::Str(x) if x == "plain"));
}

#[test]
fn test_empty_input_fails() {
    let r = decode_toon_to_json(b"", &DecodeOptions::default());
    assert_eq!(r.unwrap_err(), DecodeError::EmptyInput);
}

#[test]
fn test_invalid_magic_fails() {
    let r = decode_toon_to_json(
        b"XYZ",
        &DecodeOptions {
            compact: true,
            strict: false,
        },
    );
    assert_eq!(r.unwrap_err(), DecodeError::TruncatedBinary);
    let r2 = decode_toon_to_json(
        b"ABCDEFGH",
        &DecodeOptions {
            compact: true,
            strict: false,
        },
    );
    assert_eq!(r2.unwrap_err(), DecodeError::InvalidMagic);
}

#[test]
fn test_unknown_tag_fails() {
    let mut bytes = b"TOON\x01".to_vec();
    bytes.push(99);
    let r = decode_toon_to_json(
        &bytes,
        &DecodeOptions {
            compact: true,
            strict: false,
        },
    );
    assert_eq!(r.unwrap_err(), DecodeError::UnknownTag);
}

#[test]
fn test_invalid_utf8_fails() {
    // A compact string payload that is not UTF-8.
    let mut bytes = b"TOON\x01".to_vec();
    bytes.push(4); // string tag
    bytes.extend_from_slice(&2u32.to_le_bytes());
    bytes.push(0xff);
    bytes.push(0xfe);
    let r = decode_toon_to_json(
        &bytes,
        &DecodeOptions {
            compact: true,
            strict: false,
        },
    );
    assert_eq!(r.unwrap_err(), DecodeError::InvalidUtf8);
}

#[test]
fn test_invalid_number_text_fails() {
    let mut bytes = b"TOON\x01".to_vec();
    bytes.push(3); // number tag
    bytes.extend_from_slice(&3u32.to_le_bytes());
    bytes.extend_from_slice(b"abc");
    let r = decode_toon_to_json(
        &bytes,
        &DecodeOptions {
            compact: true,
            strict: false,
        },
    );
    assert_eq!(r.unwrap_err(), DecodeError::InvalidNumberText);
}

#[test]
fn test_parse_error_on_malformed_text() {
    let r = decode_toon_to_json(b"{key 1}", &DecodeOptions::default());
    assert_eq!(r.unwrap_err(), DecodeError::ParseError);
    let r2 = decode_toon_to_json(b"\"unterminated", &DecodeOptions::default());
    assert_eq!(r2.unwrap_err(), DecodeError::ParseError);
}

#[test]
fn test_strict_scalar_rejected() {
    let opts = EncodeOptions {
        tabular_arrays: true,
        strict: true,
        ..Default::default()
    };
    let r = encode_json_to_toon(&n("5"), &opts);
    assert_eq!(r.unwrap_err(), toon::EncodeError::StrictViolation);
}

#[test]
fn test_number_canonical_text() {
    // The number constructor canonicalizes and rejects garbage.
    assert!(Value::number("not a number").is_none());
    let v = Value::number("42").unwrap();
    assert!(matches!(v, Value::Num(x) if x == "42"));
    let encoded = enc(&Value::number("3.5").unwrap(), &EncodeOptions::default());
    assert_eq!(encoded, b"3.5".to_vec());
}

#[test]
fn test_number_idempotence_hard_cases() {
    // Shortest float renderings that need seventeen significant digits, and
    // subnormals, recover their value only under a correctly rounded parse;
    // the canonical text must re-parse to itself and round-trip byte-exactly.
    for t in [
        "1.2345678901234567",
        "2.2250738585072011e-308",
        "5e-324",
        "1.7976931348623157e308",
        "-9.007199254740993e15",
    ] {
        let v = Value::number(t).expect("valid number text");
        let text = match &v {
            Value::Num(s) => s.clone(),
            _ => panic!("expected a number"),
        };
        let again = Value::number(&text).expect("canonical text re-parses");
        assert!(matches!(again, Value::Num(s2) if s2 == text));
        let enc_text = enc(&v, &EncodeOptions::default());
        let back_text = dec(&enc_text, false);
        assert_eq!(enc(&back_text, &EncodeOptions::default()), enc_text);
        let enc_bin = enc(&v, &compact_opts());
        let back_bin = dec(&enc_bin, true);
        assert_eq!(enc(&back_bin, &compact_opts()), enc_bin);
    }
}

#[test]
fn test_text_layout_exact() {
    // One exact rendering: two sorted keys, two-space indent.
    let value = obj(vec![("b", n("2")), ("a", n("1"))]);
    let encoded = enc(&value, &EncodeOptions::default());
    assert_eq!(String::from_utf8(encoded).unwrap(), "{\n  a: 1,\n  b: 2\n}");
}

#[test]
fn test_quoted_escapes_roundtrip() {
    let value = s("a\"b\\c\nd\u{1}e");
    let encoded = enc(&value, &EncodeOptions::default());
    assert_eq!(
        String::from_utf8(encoded.clone()).unwrap(),
        "\"a\\\"b\\\\c\\nd\\u0001e\""
    );
    let decoded = dec(&encoded, false);
    assert!(matches!(decoded, Value::Str(x) if x == "a\"b\\c\nd\u{1}e"));
}

#[test]
fn test_compact_layout_exact() {
    // One exact compact rendering: magic, string tag, length, bytes.
    let encoded = enc(&s("hi"), &compact_opts());
    let mut expect = b"TOON\x01".to_vec();
    expect.push(4);
    expect.extend_from_slice(&2u32.to_le_bytes());
    expect.extend_from_slice(b"hi");
    assert_eq!(encoded, expect);
}

#[test]
fn test_auto_detect_compact_magic() {
    // With compact unset, input opening with the magic takes the compact path.
    let encoded = enc(&n("7"), &compact_opts());
    let decoded = dec(&encoded, false);
    assert!(matches!(decoded, Value::Num(x) if x == "7"));
}

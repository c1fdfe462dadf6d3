use toon::value::Value;
use toon::{decode_toon_to_json, encode_json_to_toon, DecodeOptions, EncodeOptions};

fn s(x: &str) -> Value {
    Value::Str(x.to_string())
}

fn n(x: &str) -> Value {
    Value::number(x).expect("valid number text")
}

fn obj(entries: Vec<(&str, Value)>) -> Value {
    let mut v: Vec<(String, Value)> = Vec::new();
    for (k, val) in entries {
        v.push((k.to_string(), val));
    }
    Value::Obj(v)
}

/// Structural equality with order-insensitive objects, as the value model
/// compares.
fn veq(a: &Value, b: &Value) -> bool {
    match (a, b) {
        (Value::Null, Value::Null) => true,
        (Value::Bool(x), Value::Bool(y)) => x == y,
        (Value::Num(x), Value::Num(y)) => x == y,
        (Value::Str(x), Value::Str(y)) => x == y,
        (Value::Arr(xs), Value::Arr(ys)) => {
            xs.len() == ys.len() && xs.iter().zip(ys.iter()).all(|(x, y)| veq(x, y))
        }
        (Value::Obj(xs), Value::Obj(ys)) => {
            if xs.len() != ys.len() {
                return false;
            }
            let mut ax: Vec<&(String, Value)> = xs.iter().collect();
            let mut ay: Vec<&(String, Value)> = ys.iter().collect();
            ax.sort_by(|p, q| p.0.cmp(&q.0));
            ay.sort_by(|p, q| p.0.cmp(&q.0));
            ax.iter()
                .zip(ay.iter())
                .all(|(x, y)| x.0 == y.0 && veq(&x.1, &y.1))
        }
        _ => false,
    }
}

fn roundtrip_test(value: &Value, opts: &EncodeOptions) {
    let encoded = encode_json_to_toon(value, opts).expect("Encode failed");
    let decode_opts = DecodeOptions {
        compact: opts.compact,
        strict: opts.strict,
    };
    let decoded = decode_toon_to_json(&encoded, &decode_opts).expect("Decode failed");
    assert!(veq(value, &decoded), "Roundtrip failed");
}

fn compact_opts() -> EncodeOptions {
    EncodeOptions {
        compact: true,
        ..Default::default()
    }
}

#[test]
fn test_null() {
    let value = Value::Null;
    roundtrip_test(&value, &EncodeOptions::default());
    roundtrip_test(&value, &compact_opts());
}

#[test]
fn test_booleans() {
    roundtrip_test(&Value::Bool(true), &EncodeOptions::default());
    roundtrip_test(&Value::Bool(false), &EncodeOptions::default());
    roundtrip_test(&Value::Bool(true), &compact_opts());
}

#[test]
fn test_numbers() {
    let values = vec![
        n("0"),
        n("42"),
        n("-42"),
        n("3.14159"),
        n("-3.14159"),
        n("1e10"),
        n("1.5e-8"),
    ];

    for val in values {
        roundtrip_test(&val, &EncodeOptions::default());
        roundtrip_test(&val, &compact_opts());
    }
}

#[test]
fn test_strings() {
    let values = vec![
        s(""),
        s("hello"),
        s("hello world"),
        s("with\nnewlines"),
        s("with\ttabs"),
        s("with\"quotes\""),
        s("unicode: \u{65e5}\u{672c}\u{8a9e}"),
        s("emoji: \u{1f389}"),
    ];

    for val in values {
        roundtrip_test(&val, &EncodeOptions::default());
        roundtrip_test(&val, &compact_opts());
    }
}

#[test]
fn test_empty_collections() {
    roundtrip_test(&Value::Arr(vec![]), &EncodeOptions::default());
    roundtrip_test(&obj(vec![]), &EncodeOptions::default());
    roundtrip_test(&Value::Arr(vec![]), &compact_opts());
    roundtrip_test(&obj(vec![]), &compact_opts());
}

#[test]
fn test_arrays_of_primitives() {
    let values = vec![
        Value::Arr(vec![n("1"), n("2"), n("3")]),
        Value::Arr(vec![s("a"), s("b"), s("c")]),
        Value::Arr(vec![Value::Bool(true), Value::Bool(false), Value::Bool(true)]),
        Value::Arr(vec![Value::Null, Value::Null, Value::Null]),
        Value::Arr(vec![n("1"), s("two"), Value::Bool(true), Value::Null]),
    ];

    for val in values {
        roundtrip_test(&val, &EncodeOptions::default());
        roundtrip_test(&val, &compact_opts());
    }
}

#[test]
fn test_flat_object() {
    let value = obj(vec![
        ("name", s("Alice")),
        ("age", n("30")),
        ("active", Value::Bool(true)),
        ("score", Value::Null),
    ]);

    roundtrip_test(&value, &EncodeOptions::default());
    roundtrip_test(&value, &compact_opts());
}

#[test]
fn test_nested_objects() {
    let value = obj(vec![
        (
            "user",
            obj(vec![
                ("name", s("Bob")),
                (
                    "address",
                    obj(vec![("street", s("123 Main St")), ("city", s("Springfield"))]),
                ),
            ]),
        ),
        (
            "metadata",
            obj(vec![
                ("created", s("2024-01-01")),
                ("tags", Value::Arr(vec![s("important"), s("urgent")])),
            ]),
        ),
    ]);

    roundtrip_test(&value, &EncodeOptions::default());
    roundtrip_test(&value, &compact_opts());
}

#[test]
fn test_array_of_objects_uniform() {
    let value = Value::Arr(vec![
        obj(vec![("id", n("1")), ("name", s("Alice")), ("score", n("100"))]),
        obj(vec![("id", n("2")), ("name", s("Bob")), ("score", n("95"))]),
        obj(vec![("id", n("3")), ("name", s("Charlie")), ("score", n("88"))]),
    ]);

    roundtrip_test(&value, &EncodeOptions::default());
    roundtrip_test(&value, &compact_opts());
}

#[test]
fn test_array_of_objects_nonuniform() {
    let value = Value::Arr(vec![
        obj(vec![("id", n("1")), ("name", s("Alice"))]),
        obj(vec![("id", n("2")), ("name", s("Bob")), ("extra", s("field"))]),
        obj(vec![("name", s("Charlie")), ("score", n("88"))]),
    ]);

    roundtrip_test(&value, &EncodeOptions::default());
    roundtrip_test(&value, &compact_opts());
}

#[test]
fn test_nested_arrays() {
    let value = Value::Arr(vec![
        Value::Arr(vec![n("1"), n("2"), n("3")]),
        Value::Arr(vec![n("4"), n("5"), n("6")]),
        Value::Arr(vec![n("7"), n("8"), n("9")]),
    ]);

    roundtrip_test(&value, &EncodeOptions::default());
    roundtrip_test(&value, &compact_opts());
}

#[test]
fn test_mixed_nesting() {
    let value = obj(vec![
        (
            "data",
            Value::Arr(vec![
                obj(vec![("items", Value::Arr(vec![n("1"), n("2"), n("3")]))]),
                obj(vec![("items", Value::Arr(vec![n("4"), n("5")]))]),
                obj(vec![("items", Value::Arr(vec![]))]),
            ]),
        ),
        (
            "metadata",
            obj(vec![
                ("count", n("3")),
                ("nested", obj(vec![("deep", obj(vec![("value", s("test"))]))])),
            ]),
        ),
    ]);

    roundtrip_test(&value, &EncodeOptions::default());
    roundtrip_test(&value, &compact_opts());
}

#[test]
fn test_array_order_preserved() {
    let value = Value::Arr(vec![s("z"), s("a"), s("m"), s("b")]);
    let encoded = encode_json_to_toon(&value, &EncodeOptions::default()).unwrap();
    let decoded = decode_toon_to_json(&encoded, &DecodeOptions::default()).unwrap();

    assert!(veq(&value, &decoded));
    if let Value::Arr(arr) = decoded {
        assert!(matches!(&arr[0], Value::Str(x) if x == "z"));
        assert!(matches!(&arr[1], Value::Str(x) if x == "a"));
        assert!(matches!(&arr[2], Value::Str(x) if x == "m"));
        assert!(matches!(&arr[3], Value::Str(x) if x == "b"));
    } else {
        panic!("Expected array");
    }
}

#[test]
fn test_large_document() {
    let mut items = Vec::new();
    for i in 0..100 {
        items.push(obj(vec![
            ("id", n(&i.to_string())),
            ("name", s(&format!("Item {}", i))),
            ("value", n(&(i as f64 * 1.5).to_string())),
            ("tags", Value::Arr(vec![s("a"), s("b"), s("c")])),
            (
                "meta",
                obj(vec![("created", s("2024-01-01")), ("updated", s("2024-01-02"))]),
            ),
        ]));
    }
    let value = Value::Arr(items);

    roundtrip_test(&value, &EncodeOptions::default());
    roundtrip_test(&value, &compact_opts());
}

use toon::value::Value;
use toon::{decode_toon_to_json, encode_json_to_toon, DecodeOptions, EncodeOptions};

fn s(x: &str) -> Value {
    Value::Str(x.to_string())
}

fn n(x: &str) -> Value {
    Value::number(x).expect("valid number text")
}

fn obj(entries: Vec<(&str, Value)>) -> Value {
    let mut v: Vec<(String, Value)> = Vec::new();
    for (k, val) in entries {
        v.push((k.to_string(), val));
    }
    Value::Obj(v)
}

fn veq(a: &Value, b: &Value) -> bool {
    match (a, b) {
        (Value::Null, Value::Null) => true,
        (Value::Bool(x), Value::Bool(y)) => x == y,
        (Value::Num(x), Value::Num(y)) => x == y,
        (Value::Str(x), Value::Str(y)) => x == y,
        (Value::Arr(xs), Value::Arr(ys)) => {
            xs.len() == ys.len() && xs.iter().zip(ys.iter()).all(|(x, y)| veq(x, y))
        }
        (Value::Obj(xs), Value::Obj(ys)) => {
            if xs.len() != ys.len() {
                return false;
            }
            let mut ax: Vec<&(String, Value)> = xs.iter().collect();
            let mut ay: Vec<&(String, Value)> = ys.iter().collect();
            ax.sort_by(|p, q| p.0.cmp(&q.0));
            ay.sort_by(|p, q| p.0.cmp(&q.0));
            ax.iter()
                .zip(ay.iter())
                .all(|(x, y)| x.0 == y.0 && veq(&x.1, &y.1))
        }
        _ => false,
    }
}

#[test]
fn test_uniform_array_tabular_text() {
    let value = Value::Arr(vec![
        obj(vec![("id", n("1")), ("name", s("Alice")), ("score", n("100"))]),
        obj(vec![("id", n("2")), ("name", s("Bob")), ("score", n("95"))]),
        obj(vec![("id", n("3")), ("name", s("Charlie")), ("score", n("88"))]),
    ]);

    let opts = EncodeOptions {
        tabular_arrays: true,
        ..Default::default()
    };

    let encoded = encode_json_to_toon(&value, &opts).expect("Encode failed");
    let decoded = decode_toon_to_json(&encoded, &DecodeOptions::default()).expect("Decode failed");

    // Should roundtrip correctly
    assert!(veq(&value, &decoded));
}

#[test]
fn test_uniform_array_tabular_compact() {
    let value = Value::Arr(vec![
        obj(vec![("id", n("1")), ("name", s("Alice"))]),
        obj(vec![("id", n("2")), ("name", s("Bob"))]),
        obj(vec![("id", n("3")), ("name", s("Charlie"))]),
    ]);

    let opts = EncodeOptions {
        tabular_arrays: true,
        compact: true,
        ..Default::default()
    };

    let encoded = encode_json_to_toon(&value, &opts).expect("Encode failed");
    let decoded = decode_toon_to_json(
        &encoded,
        &DecodeOptions {
            compact: true,
            ..Default::default()
        },
    )
    .expect("Decode failed");

    assert!(veq(&value, &decoded));
}

#[test]
fn test_nonuniform_array_fallback() {
    let value = Value::Arr(vec![
        obj(vec![("id", n("1")), ("name", s("Alice"))]),
        obj(vec![("id", n("2")), ("name", s("Bob")), ("extra", s("field"))]),
    ]);

    let opts = EncodeOptions {
        tabular_arrays: true,
        ..Default::default()
    };

    // Should fall back to normal encoding without error
    let encoded = encode_json_to_toon(&value, &opts).expect("Encode should succeed");
    let decoded = decode_toon_to_json(&encoded, &DecodeOptions::default()).expect("Decode failed");

    assert!(veq(&value, &decoded));
}

#[test]
fn test_nonuniform_array_strict_fails() {
    let value = Value::Arr(vec![
        obj(vec![("id", n("1")), ("name", s("Alice"))]),
        obj(vec![("id", n("2")), ("name", s("Bob")), ("extra", s("field"))]),
    ]);

    let opts = EncodeOptions {
        tabular_arrays: true,
        strict: true,
        ..Default::default()
    };

    // Should fail in strict mode
    let result = encode_json_to_toon(&value, &opts);
    assert!(result.is_err());
}

#[test]
fn test_empty_array_tabular() {
    let value = Value::Arr(vec![]);

    let opts = EncodeOptions {
        tabular_arrays: true,
        ..Default::default()
    };

    let encoded = encode_json_to_toon(&value, &opts).expect("Encode failed");
    let decoded = decode_toon_to_json(&encoded, &DecodeOptions::default()).expect("Decode failed");

    assert!(veq(&value, &decoded));
}

#[test]
fn test_single_object_array_tabular() {
    let value = Value::Arr(vec![obj(vec![
        ("id", n("1")),
        ("name", s("Alice")),
        ("score", n("100")),
    ])]);

    let opts = EncodeOptions {
        tabular_arrays: true,
        ..Default::default()
    };

    let encoded = encode_json_to_toon(&value, &opts).expect("Encode failed");
    let decoded = decode_toon_to_json(&encoded, &DecodeOptions::default()).expect("Decode failed");

    assert!(veq(&value, &decoded));
}

#[test]
fn test_nested_values_in_tabular() {
    let value = Value::Arr(vec![
        obj(vec![
            ("id", n("1")),
            ("tags", Value::Arr(vec![s("a"), s("b")])),
            ("meta", obj(vec![("x", n("1"))])),
        ]),
        obj(vec![
            ("id", n("2")),
            ("tags", Value::Arr(vec![s("c")])),
            ("meta", obj(vec![("x", n("2"))])),
        ]),
    ]);

    let opts = EncodeOptions {
        tabular_arrays: true,
        ..Default::default()
    };

    let encoded = encode_json_to_toon(&value, &opts).expect("Encode failed");
    let decoded = decode_toon_to_json(&encoded, &DecodeOptions::default()).expect("Decode failed");

    assert!(veq(&value, &decoded));
}

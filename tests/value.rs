use ardite::value::{Object, Value};
use ardite::error::ErrorCode;
use std::cmp::Ordering;

fn s(x: &str) -> Value {
    Value::String(x.to_string())
}

fn obj(entries: Vec<(&str, Value)>) -> Value {
    let mut o = Object::new();
    for (k, v) in entries {
        o.insert(k.to_string(), v);
    }
    Value::Object(o)
}

fn p(keys: &[&str]) -> Vec<String> {
    keys.iter().map(|k| k.to_string()).collect()
}

#[test]
fn value_test_get_primitive() {
    assert_eq!(Value::Null.get_path(&p(&[])), Some(&Value::Null));
    assert_eq!(Value::Null.get_path(&p(&["hello"])), None);
    assert_eq!(Value::Null.get_path(&p(&["a", "b", "c", "d", "e"])), None);
    assert_eq!(Value::Boolean(true).get_path(&p(&[])), Some(&Value::Boolean(true)));
    assert_eq!(Value::Boolean(true).get_path(&p(&["hello"])), None);
    assert_eq!(Value::I64(36).get_path(&p(&[])), Some(&Value::I64(36)));
    assert_eq!(Value::I64(36).get_path(&p(&["hello"])), None);
    assert_eq!(s("world").get_path(&p(&[])), Some(&s("world")));
    assert_eq!(s("world").get_path(&p(&["hello"])), None);
}

#[test]
fn value_test_get_object() {
    let object = obj(vec![
        ("hello", Value::Boolean(true)),
        ("world", Value::I64(8)),
        ("yolo", s("swag")),
        ("5", Value::Null),
        ("moon", obj(vec![("hello", s("yoyo"))])),
    ]);
    assert_eq!(object.get_path(&p(&[])), Some(&object));
    assert_eq!(object.get_path(&p(&["hello"])), Some(&Value::Boolean(true)));
    assert_eq!(object.get_path(&p(&["yolo"])), Some(&s("swag")));
    assert_eq!(object.get_path(&p(&["5"])), Some(&Value::Null));
    assert_eq!(object.get_path(&p(&["world", "hello"])), None);
    assert_eq!(object.get_path(&p(&["moon", "hello"])), Some(&s("yoyo")));
    assert_eq!(object.get_path(&p(&["moon", "nope"])), None);
}

#[test]
fn value_test_get_array() {
    let array = Value::Array(vec![
        Value::Boolean(false),
        Value::I64(64),
        obj(vec![
            ("hello", Value::Boolean(true)),
            ("world", Value::Boolean(false)),
            ("moon", obj(vec![("goodbye", s("yoyo"))])),
        ]),
        Value::Array(vec![
            Value::Array(vec![Value::I64(1), Value::I64(2), Value::I64(3)]),
            Value::I64(4),
            Value::I64(5),
        ]),
    ]);
    assert_eq!(array.get_path(&p(&[])), Some(&array));
    assert_eq!(array.get_path(&p(&["0"])), Some(&Value::Boolean(false)));
    assert_eq!(array.get_path(&p(&["1"])), Some(&Value::I64(64)));
    assert_eq!(array.get_path(&p(&["2", "hello"])), Some(&Value::Boolean(true)));
    assert_eq!(array.get_path(&p(&["2", "moon", "goodbye"])), Some(&s("yoyo")));
    assert_eq!(array.get_path(&p(&["length"])), None);
    assert_eq!(array.get_path(&p(&["3", "0", "1"])), Some(&Value::I64(2)));
}

#[test]
fn test_set_primitive() {
    assert!(Value::Null.set("hello", Value::Boolean(true)).is_err());
    assert!(Value::Boolean(false).set("hello", Value::Boolean(true)).is_err());
    assert!(Value::I64(32).set("hello", Value::Boolean(true)).is_err());
    assert!(s("hello").set("hello", Value::Boolean(true)).is_err());
}

#[test]
fn test_set_array() {
    let a = || Value::Array(vec![Value::I64(1), Value::I64(2), Value::I64(3)]);
    assert!(a().set("yo", Value::Boolean(true)).is_err());
    assert!(a().set("3", Value::Boolean(true)).is_err());
    assert_eq!(
        a().set("1", Value::Boolean(true)).unwrap(),
        Value::Array(vec![Value::I64(1), Value::Boolean(true), Value::I64(3)])
    );
}

#[test]
fn test_set_object() {
    assert_eq!(obj(vec![]).set("hello", s("world")).unwrap(), obj(vec![("hello", s("world"))]));
    assert_eq!(
        obj(vec![("hello", s("moon"))]).set("hello", s("world")).unwrap(),
        obj(vec![("hello", s("world"))])
    );
    assert_eq!(
        obj(vec![("yo", Value::I64(42))]).set("hello", s("world")).unwrap(),
        obj(vec![("yo", Value::I64(42)), ("hello", s("world"))])
    );
}

#[test]
fn get_nested_object_scenario() {
    let v = obj(vec![("a", Value::I64(1)), ("b", obj(vec![("c", Value::I64(2))]))]);
    assert_eq!(v.get_path(&p(&["b", "c"])), Some(&Value::I64(2)));
}

#[test]
fn get_is_repeatable() {
    let v = obj(vec![("a", Value::Array(vec![Value::I64(7), s("x")]))]);
    let first = v.get_path(&p(&["a", "1"]));
    let second = v.get_path(&p(&["a", "1"]));
    assert_eq!(first, second);
    assert_eq!(first, Some(&s("x")));
    assert_eq!(v, obj(vec![("a", Value::Array(vec![Value::I64(7), s("x")]))]));
}

#[test]
fn array_index_parsing() {
    let a = Value::Array(vec![Value::I64(10), Value::I64(11)]);
    assert_eq!(a.get("+1"), None);
    assert_eq!(a.get("01"), Some(&Value::I64(11)));
    assert_eq!(a.get("-1"), None);
    assert_eq!(a.get(""), None);
    assert_eq!(a.get("+"), None);
    assert_eq!(a.get("99999999999999999999999"), None);
    assert_eq!(a.get("2"), None);
}

#[test]
fn set_error_kinds() {
    let e = Value::I64(1).set("k", Value::Null).unwrap_err();
    assert_eq!(e.code(), ErrorCode::BadRequest);
    assert_eq!(e.message(), "Cannot set key 'k' for primitive value i64.");
    let a = Value::Array(vec![Value::Null]);
    let e = a.set("5", Value::Null).unwrap_err();
    assert_eq!(e.code(), ErrorCode::BadRange);
    assert_eq!(e.message(), "Cannot set index 5 because it is out of range for the array.");
    let a = Value::Array(vec![Value::Null]);
    let e = a.set("+0", Value::Null).unwrap_err();
    assert_eq!(e.code(), ErrorCode::BadRange);
    let a = Value::Array(vec![Value::Null]);
    let e = a.set("x", Value::Null).unwrap_err();
    assert_eq!(e.code(), ErrorCode::BadRange);
    assert!(e.message().contains("'x'"));
}

#[test]
fn object_equality_ignores_order() {
    let a = obj(vec![("x", Value::I64(1)), ("y", Value::I64(2))]);
    let b = obj(vec![("y", Value::I64(2)), ("x", Value::I64(1))]);
    assert_eq!(a, b);
    assert_ne!(a, obj(vec![("x", Value::I64(1))]));
    assert_ne!(Value::I64(1), Value::F64(1.0f64.to_bits()));
}

#[test]
fn float_equality_and_order() {
    let nan = Value::F64(f64::NAN.to_bits());
    assert_ne!(nan, Value::F64(f64::NAN.to_bits()));
    assert_eq!(Value::F64(0.0f64.to_bits()), Value::F64((-0.0f64).to_bits()));
    assert_eq!(Value::F64((-2.5f64).to_bits()).partial_cmp(&Value::F64(1.0f64.to_bits())), Some(std::cmp::Ordering::Less));
    assert_eq!(Value::F64(3.0f64.to_bits()).partial_cmp(&Value::F64(1.0f64.to_bits())), Some(std::cmp::Ordering::Greater));
    assert_eq!(Value::F64((-3.0f64).to_bits()).partial_cmp(&Value::F64((-1.0f64).to_bits())), Some(std::cmp::Ordering::Less));
    assert_eq!(nan.partial_cmp(&Value::F64(1.0f64.to_bits())), None);
}

#[test]
fn value_partial_order() {
    assert_eq!(Value::Null.partial_cmp(&Value::Null), Some(Ordering::Equal));
    assert_eq!(Value::Boolean(false).partial_cmp(&Value::Boolean(true)), Some(Ordering::Less));
    assert_eq!(Value::I64(-3).partial_cmp(&Value::I64(2)), Some(Ordering::Less));
    assert_eq!(s("abc").partial_cmp(&s("abd")), Some(Ordering::Less));
    assert_eq!(s("ab").partial_cmp(&s("a")), Some(Ordering::Greater));
    assert_eq!(Value::I64(1).partial_cmp(&s("1")), None);
    assert_eq!(obj(vec![]).partial_cmp(&obj(vec![])), None);
}

#[test]
fn object_insert_and_duplicate() {
    let mut o = Object::new();
    assert_eq!(o.insert("a".to_string(), Value::I64(1)), None);
    assert_eq!(o.insert("b".to_string(), Value::I64(2)), None);
    assert_eq!(o.insert("a".to_string(), Value::I64(3)), Some(Value::I64(1)));
    assert_eq!(o.len(), 2);
    assert_eq!(o.entries()[0].0, "a");
    assert_eq!(o.get("a"), Some(&Value::I64(3)));
    let v = Value::Object(o);
    assert_eq!(v.duplicate(), v);
    assert_eq!(v.kind(), "object");
}

#[test]
fn map_keys_values_and_entries() {
    let v = obj(vec![("a", Value::I64(1)), ("B", Value::I64(2))]);
    let upper = v.map_keys(|k: String| k.to_uppercase());
    assert_eq!(upper, obj(vec![("A", Value::I64(1)), ("B", Value::I64(2))]));
    let merged = obj(vec![("a", Value::I64(1)), ("A", Value::I64(2))]).map_keys(|k: String| k.to_lowercase());
    assert_eq!(merged, obj(vec![("a", Value::I64(2))]));
    let doubled = obj(vec![("x", Value::I64(3))]).map_values(|v: Value| match v {
        Value::I64(n) => Value::I64(n * 2),
        other => other,
    });
    assert_eq!(doubled, obj(vec![("x", Value::I64(6))]));
    let wrapped = Value::Array(vec![Value::I64(1), Value::Null]).map_values(|v: Value| Value::Array(vec![v]));
    assert_eq!(wrapped, Value::Array(vec![Value::Array(vec![Value::I64(1)]), Value::Array(vec![Value::Null])]));
    let swapped = obj(vec![("k", s("v"))]).map_entries(|(k, v): (String, Value)| match v {
        Value::String(t) => (t, Value::String(k)),
        other => (k, other),
    });
    assert_eq!(swapped, obj(vec![("v", s("k"))]));
    assert_eq!(Value::I64(7).map_keys(|k: String| k), Value::I64(7));
    assert_eq!(s("z").map_values(|v: Value| v), s("z"));
}

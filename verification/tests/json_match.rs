//! Approximate JSON comparison: wildcards, bag-like arrays, objects.

use method_resolution::json::{find_mismatch, JsonNum, JsonValue};

fn s(text: &str) -> JsonValue {
    JsonValue::Str(text.to_string())
}

fn n(v: i64) -> JsonValue {
    JsonValue::Num(JsonNum::Int(v))
}

#[test]
fn equal_scalars_match() {
    assert!(find_mismatch(&n(3), &n(3)).is_none());
    assert!(find_mismatch(&JsonValue::Bool(true), &JsonValue::Bool(true)).is_none());
    assert!(find_mismatch(&JsonValue::Null, &JsonValue::Null).is_none());
    assert!(find_mismatch(&n(3), &n(4)).is_some());
    assert!(find_mismatch(&JsonValue::Bool(true), &n(1)).is_some());
}

#[test]
fn strings_match_with_wildcards() {
    assert!(find_mismatch(&s("a[..]b"), &s("a whole b")).is_none());
    assert!(find_mismatch(&s("a b"), &s("a c")).is_some());
}

#[test]
fn any_tree_wildcard_matches_everything() {
    assert!(find_mismatch(&s("{...}"), &n(42)).is_none());
    assert!(find_mismatch(&s("{...}"), &JsonValue::Array(vec![n(1), n(2)])).is_none());
    assert!(find_mismatch(&n(42), &s("{...}")).is_some());
}

#[test]
fn arrays_compare_as_bags() {
    let left = JsonValue::Array(vec![n(1), n(2), n(3)]);
    let right = JsonValue::Array(vec![n(3), n(1), n(2)]);
    assert!(find_mismatch(&left, &right).is_none());
    let short = JsonValue::Array(vec![n(1), n(2)]);
    assert!(find_mismatch(&left, &short).is_some());
    let off = JsonValue::Array(vec![n(1), n(2), n(4)]);
    let m = find_mismatch(&left, &off).expect("3 finds no partner");
    match m {
        (JsonValue::Num(JsonNum::Int(3)), JsonValue::Num(JsonNum::Int(4))) => {}
        other => panic!("unexpected mismatch pair: {:?}", other),
    }
}

#[test]
fn objects_compare_by_key_then_value() {
    let left = JsonValue::Object(vec![
        ("a".to_string(), n(1)),
        ("b".to_string(), s("[..]")),
    ]);
    let right = JsonValue::Object(vec![
        ("a".to_string(), n(1)),
        ("b".to_string(), s("anything")),
    ]);
    assert!(find_mismatch(&left, &right).is_none());
    let renamed = JsonValue::Object(vec![
        ("a".to_string(), n(1)),
        ("c".to_string(), s("anything")),
    ]);
    assert!(find_mismatch(&left, &renamed).is_some());
    let off = JsonValue::Object(vec![
        ("a".to_string(), n(2)),
        ("b".to_string(), s("anything")),
    ]);
    let m = find_mismatch(&left, &off).expect("the values under `a` differ");
    match m {
        (JsonValue::Num(JsonNum::Int(1)), JsonValue::Num(JsonNum::Int(2))) => {}
        other => panic!("unexpected mismatch pair: {:?}", other),
    }
}

#[test]
fn float_payloads_compare_by_bits() {
    let a = JsonValue::Num(JsonNum::FloatBits((1.5f64).to_bits()));
    let b = JsonValue::Num(JsonNum::FloatBits((1.5f64).to_bits()));
    let c = JsonValue::Num(JsonNum::FloatBits((2.5f64).to_bits()));
    assert!(find_mismatch(&a, &b).is_none());
    assert!(find_mismatch(&a, &c).is_some());
}

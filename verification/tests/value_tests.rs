use llm_fmt::sort::sort_keys;
use llm_fmt::value::{Number, Value};

fn obj(entries: Vec<(&str, Value)>) -> Value {
    Value::Object(entries.into_iter().map(|(k, v)| (k.to_string(), v)).collect())
}

fn num(i: i64) -> Value {
    Value::Number(Number::Int(i))
}

#[test]
fn constructors_make_each_kind() {
    assert_eq!(Value::null(), Value::Null);
    assert_eq!(Value::from_bool(true), Value::Bool(true));
    assert_eq!(Value::from_int(-3), num(-3));
    assert_eq!(Value::from_text("x"), Value::String("x".to_string()));
    assert_eq!(Value::from_items(vec![num(1)]), Value::Array(vec![num(1)]));
    assert_eq!(
        Value::from_entries(vec![
            ("a".to_string(), num(1)),
            ("b".to_string(), num(2)),
            ("a".to_string(), num(3)),
        ]),
        obj(vec![("a", num(3)), ("b", num(2))])
    );
}

#[test]
fn depth_counts_nested_containers_from_zero() {
    assert_eq!(num(1).depth(), 0);
    assert_eq!(Value::Array(vec![]).depth(), 0);
    assert_eq!(obj(vec![("a", num(1))]).depth(), 0);
    assert_eq!(obj(vec![("a", Value::Array(vec![]))]).depth(), 1);
    assert_eq!(
        obj(vec![("a", Value::Array(vec![obj(vec![("b", num(1))])])), ("c", num(2))]).depth(),
        2
    );
}

#[test]
fn get_tells_a_missing_key_from_a_null() {
    let v = obj(vec![("a", Value::Null), ("b", num(2))]);
    assert_eq!(v.get("a"), Some(&Value::Null));
    assert_eq!(v.get("b"), Some(&num(2)));
    assert_eq!(v.get("c"), None);
    assert_eq!(num(1).get("a"), None);
}

#[test]
fn index_tells_a_missing_item_from_a_null() {
    let v = Value::Array(vec![Value::Null, num(2)]);
    assert_eq!(v.index(0), Some(&Value::Null));
    assert_eq!(v.index(1), Some(&num(2)));
    assert_eq!(v.index(2), None);
    assert_eq!(obj(vec![]).index(0), None);
}

#[test]
fn equals_is_structural() {
    let a = obj(vec![("a", Value::Array(vec![num(1), Value::String("x".to_string())]))]);
    let b = obj(vec![("a", Value::Array(vec![num(1), Value::String("x".to_string())]))]);
    let c = obj(vec![("a", Value::Array(vec![num(1), Value::String("y".to_string())]))]);
    assert!(a.equals(&b));
    assert!(!a.equals(&c));
    assert!(!a.equals(&Value::Null));
    assert!(!num(1).equals(&Value::Number(Number::Literal("1.0".to_string()))));
    assert!(a.deep_clone().equals(&a));
    assert_eq!(a.clone(), a);
}

#[test]
fn key_order_matters_for_equality() {
    let a = obj(vec![("a", num(1)), ("b", num(2))]);
    let b = obj(vec![("b", num(2)), ("a", num(1))]);
    assert!(!a.equals(&b));
}

#[test]
fn sort_keys_orders_every_level() {
    let v = obj(vec![
        ("b", obj(vec![("z", num(1)), ("y", num(2))])),
        ("a", Value::Array(vec![obj(vec![("d", num(3)), ("c", num(4))])])),
        ("B", num(5)),
        ("ab", num(6)),
    ]);
    let expected = obj(vec![
        ("B", num(5)),
        ("a", Value::Array(vec![obj(vec![("c", num(4)), ("d", num(3))])])),
        ("ab", num(6)),
        ("b", obj(vec![("y", num(2)), ("z", num(1))])),
    ]);
    assert_eq!(sort_keys(&v), expected);
}

use keyed_archive::decode::dict_insert;
use keyed_archive::value::{copy_bytes, find_entry, Value};

fn entries(pairs: &[(&str, i128)]) -> Vec<(String, Value)> {
    pairs.iter().map(|(k, v)| (k.to_string(), Value::Integer(*v))).collect()
}

#[test]
fn insert_new_key_goes_last() {
    let mut d = entries(&[("a", 1)]);
    dict_insert(&mut d, "b".to_string(), Value::Integer(2));
    assert_eq!(d, entries(&[("a", 1), ("b", 2)]));
}

#[test]
fn insert_existing_key_replaces_in_place() {
    let mut d = entries(&[("a", 1), ("b", 2)]);
    dict_insert(&mut d, "a".to_string(), Value::Integer(9));
    assert_eq!(d, entries(&[("a", 9), ("b", 2)]));
}

#[test]
fn find_entry_returns_first_position() {
    let d = entries(&[("x", 1), ("y", 2), ("y", 3)]);
    assert_eq!(find_entry(&d, &"y".to_string()), Some(1));
    assert_eq!(find_entry(&d, &"z".to_string()), None);
}

#[test]
fn deep_copy_is_equal() {
    let v = Value::Array(vec![
        Value::Dictionary(entries(&[("k", 4)])),
        Value::Data(vec![7, 8]),
        Value::String("s".to_string()),
        Value::Date(-12),
    ]);
    assert_eq!(v.deep_copy(), v);
    assert_eq!(copy_bytes(&vec![1, 2, 3]), vec![1, 2, 3]);
}

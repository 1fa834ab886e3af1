use keyed_archive::decode::flatten_root;
use keyed_archive::value::Value;

fn s(x: &str) -> Value {
    Value::String(x.to_string())
}

fn dict(entries: Vec<(&str, Value)>) -> Value {
    Value::Dictionary(entries.into_iter().map(|(k, v)| (k.to_string(), v)).collect())
}

fn record(key: Value, value: Value) -> Value {
    dict(vec![("key", key), ("value", value)])
}

#[test]
fn flatten_groups_two_levels() {
    let inner = Value::Array(vec![
        record(s("x"), Value::Integer(1)),
        record(s("y"), Value::Integer(2)),
    ]);
    let raw = dict(vec![(
        "root",
        Value::Array(vec![record(s("a"), inner), record(s("b"), Value::Integer(5))]),
    )]);
    let expected = dict(vec![
        ("a", dict(vec![("x", Value::Integer(1)), ("y", Value::Integer(2))])),
        ("b", Value::Integer(5)),
    ]);
    assert_eq!(flatten_root(&raw), expected);
}

#[test]
fn flatten_root_string_passes_through() {
    let raw = dict(vec![("root", s("asdf"))]);
    assert_eq!(flatten_root(&raw), s("asdf"));
}

#[test]
fn flatten_root_dictionary_passes_through() {
    let inner = dict(vec![("fortnite", Value::Boolean(false))]);
    let raw = dict(vec![("root", dict(vec![("good games", inner)]))]);
    let expected = dict(vec![("good games", dict(vec![("fortnite", Value::Boolean(false))]))]);
    assert_eq!(flatten_root(&raw), expected);
}

#[test]
fn flatten_non_dictionary_unchanged() {
    assert_eq!(flatten_root(&s("plain")), s("plain"));
    assert_eq!(flatten_root(&Value::Integer(7)), Value::Integer(7));
}

#[test]
fn flatten_without_root_unchanged() {
    let raw = dict(vec![("other", Value::Integer(3))]);
    assert_eq!(flatten_root(&raw), dict(vec![("other", Value::Integer(3))]));
}

#[test]
fn flatten_skips_malformed_records() {
    let raw = dict(vec![(
        "root",
        Value::Array(vec![
            record(Value::Integer(1), s("number key")),
            dict(vec![("key", s("no value"))]),
            dict(vec![("value", s("no key"))]),
            s("not a record"),
            record(s("kept"), s("yes")),
        ]),
    )]);
    assert_eq!(flatten_root(&raw), dict(vec![("kept", s("yes"))]));
}

#[test]
fn flatten_mixed_array_is_copied() {
    let mixed = Value::Array(vec![record(s("x"), Value::Integer(1)), Value::Integer(2)]);
    let raw = dict(vec![("root", Value::Array(vec![record(s("m"), mixed)]))]);
    let expected = dict(vec![(
        "m",
        Value::Array(vec![record(s("x"), Value::Integer(1)), Value::Integer(2)]),
    )]);
    assert_eq!(flatten_root(&raw), expected);
}

#[test]
fn flatten_later_record_replaces_earlier_in_place() {
    let raw = dict(vec![(
        "root",
        Value::Array(vec![
            record(s("a"), Value::Integer(1)),
            record(s("b"), Value::Integer(2)),
            record(s("a"), Value::Integer(3)),
        ]),
    )]);
    let expected = dict(vec![("a", Value::Integer(3)), ("b", Value::Integer(2))]);
    assert_eq!(flatten_root(&raw), expected);
}

#[test]
fn flatten_empty_root_array() {
    let raw = dict(vec![("root", Value::Array(vec![]))]);
    assert_eq!(flatten_root(&raw), Value::Dictionary(vec![]));
}

#[test]
fn flatten_inner_group_is_one_level() {
    let deep = Value::Array(vec![record(s("z"), Value::Integer(9))]);
    let inner = Value::Array(vec![record(s("x"), deep)]);
    let raw = dict(vec![("root", Value::Array(vec![record(s("a"), inner)]))]);
    let expected = dict(vec![(
        "a",
        dict(vec![("x", Value::Array(vec![record(s("z"), Value::Integer(9))]))]),
    )]);
    assert_eq!(flatten_root(&raw), expected);
}

#[test]
fn flatten_keeps_array_of_non_records_verbatim() {
    let value = Value::Array(vec![dict(vec![("z", Value::Integer(1))])]);
    let raw = dict(vec![("root", Value::Array(vec![record(s("a"), value)]))]);
    let expected = dict(vec![("a", Value::Array(vec![dict(vec![("z", Value::Integer(1))])]))]);
    assert_eq!(flatten_root(&raw), expected);
}

#[test]
fn flatten_groups_only_when_every_element_is_a_record() {
    let value = Value::Array(vec![
        record(s("x"), Value::Integer(1)),
        record(Value::Integer(2), Value::Integer(3)),
    ]);
    let raw = dict(vec![("root", Value::Array(vec![record(s("a"), value)]))]);
    let expected = dict(vec![(
        "a",
        Value::Array(vec![
            record(s("x"), Value::Integer(1)),
            record(Value::Integer(2), Value::Integer(3)),
        ]),
    )]);
    assert_eq!(flatten_root(&raw), expected);
}

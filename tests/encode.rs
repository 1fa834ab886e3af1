use keyed_archive::encode::{encode, EncodeError};
use keyed_archive::value::Value;

fn s(x: &str) -> Value {
    Value::String(x.to_string())
}

fn dict(entries: Vec<(&str, Value)>) -> Value {
    Value::Dictionary(entries.into_iter().map(|(k, v)| (k.to_string(), v)).collect())
}

fn uids(us: &[u64]) -> Value {
    Value::Array(us.iter().map(|u| Value::Uid(*u)).collect())
}

fn class(name: &str) -> Value {
    dict(vec![
        ("$classes", Value::Array(vec![s(name), s("NSObject")])),
        ("$classname", s(name)),
    ])
}

fn archive(root: u64, objects: Vec<Value>) -> Value {
    dict(vec![
        ("$archiver", s("NSKeyedArchiver")),
        ("$version", Value::Integer(100000)),
        ("$top", dict(vec![("root", Value::Uid(root))])),
        ("$objects", Value::Array(objects)),
    ])
}

fn objects(a: &Value) -> &Vec<Value> {
    match a {
        Value::Dictionary(d) => match &d[3].1 {
            Value::Array(t) => t,
            _ => panic!("no object table"),
        },
        _ => panic!("not a dictionary"),
    }
}

fn describes(obj: &Value, name: &str) -> bool {
    match obj {
        Value::Dictionary(d) => d.iter().any(|(k, v)| {
            k == "$classes" && matches!(v, Value::Array(cs) if cs.first() == Some(&s(name)))
        }),
        _ => false,
    }
}

fn refs_below(v: &Value, n: u64) -> bool {
    match v {
        Value::Uid(u) => *u < n,
        Value::Array(a) => a.iter().all(|x| refs_below(x, n)),
        Value::Dictionary(d) => d.iter().all(|(_, x)| refs_below(x, n)),
        _ => true,
    }
}

#[test]
fn encode_root_string() {
    let a = encode(s("asdf")).unwrap();
    assert_eq!(a, archive(1, vec![s("$null"), s("asdf")]));
}

#[test]
fn encode_scalars_are_not_shared() {
    let a = encode(Value::Array(vec![Value::Integer(1), Value::Integer(1)])).unwrap();
    let expected = archive(
        4,
        vec![
            s("$null"),
            Value::Integer(1),
            Value::Integer(1),
            class("NSArray"),
            dict(vec![("$class", Value::Uid(3)), ("NS.objects", uids(&[1, 2]))]),
        ],
    );
    assert_eq!(a, expected);
}

#[test]
fn encode_dictionary_layout() {
    let input = dict(vec![
        ("asdf", s("qwer")),
        ("reeeeee", Value::Array(vec![s("a"), Value::Integer(1)])),
        ("good games", dict(vec![("fortnite", Value::Boolean(false))])),
    ]);
    let expected = archive(
        13,
        vec![
            s("$null"),
            s("asdf"),
            s("qwer"),
            s("reeeeee"),
            s("a"),
            Value::Integer(1),
            class("NSArray"),
            dict(vec![("$class", Value::Uid(6)), ("NS.objects", uids(&[4, 5]))]),
            s("good games"),
            s("fortnite"),
            Value::Boolean(false),
            class("NSDictionary"),
            dict(vec![
                ("$class", Value::Uid(11)),
                ("NS.keys", uids(&[9])),
                ("NS.objects", uids(&[10])),
            ]),
            dict(vec![
                ("$class", Value::Uid(11)),
                ("NS.keys", uids(&[1, 3, 8])),
                ("NS.objects", uids(&[2, 7, 12])),
            ]),
        ],
    );
    assert_eq!(encode(input).unwrap(), expected);
}

#[test]
fn encode_null_string_refers_to_sentinel() {
    let a = encode(dict(vec![("k", s("$null"))])).unwrap();
    let expected = archive(
        3,
        vec![
            s("$null"),
            s("k"),
            class("NSDictionary"),
            dict(vec![
                ("$class", Value::Uid(2)),
                ("NS.keys", uids(&[1])),
                ("NS.objects", uids(&[0])),
            ]),
        ],
    );
    assert_eq!(a, expected);
}

#[test]
fn encode_root_null_string() {
    assert_eq!(encode(s("$null")).unwrap(), archive(0, vec![s("$null")]));
}

#[test]
fn encode_one_descriptor_per_class() {
    let input = Value::Array(vec![
        dict(vec![("a", Value::Integer(1))]),
        dict(vec![("b", Value::Array(vec![Value::Integer(2)]))]),
        Value::Array(vec![dict(vec![])]),
        Value::Array(vec![]),
    ]);
    let a = encode(input).unwrap();
    let t = objects(&a);
    assert_eq!(t.iter().filter(|o| describes(o, "NSDictionary")).count(), 1);
    assert_eq!(t.iter().filter(|o| describes(o, "NSArray")).count(), 1);
}

#[test]
fn encode_references_stay_inside_table() {
    let input = dict(vec![
        ("x", Value::Array(vec![Value::Real(1.5f64.to_bits()), Value::Data(vec![1, 2, 3])])),
        ("y", dict(vec![("z", Value::Date(-5)), ("w", s("$null"))])),
    ]);
    let a = encode(input).unwrap();
    let t = objects(&a);
    assert_eq!(t[0], s("$null"));
    assert!(refs_below(&a, t.len() as u64));
    for (i, o) in t.iter().enumerate() {
        assert!(refs_below(o, i as u64));
    }
}

#[test]
fn encode_rejects_reference_anywhere() {
    assert_eq!(encode(Value::Uid(3)), Err(EncodeError::InvalidObjectEncoding));
    let nested = dict(vec![("a", Value::Array(vec![Value::Integer(1), Value::Uid(0)]))]);
    assert_eq!(encode(nested), Err(EncodeError::InvalidObjectEncoding));
}

#[test]
fn encode_rejects_null() {
    assert_eq!(encode(Value::Null), Err(EncodeError::UnsupportedValue));
    let nested = Value::Array(vec![Value::Boolean(true), Value::Null]);
    assert_eq!(encode(nested), Err(EncodeError::UnsupportedValue));
}

#[test]
fn encode_first_error_wins() {
    let input = Value::Array(vec![Value::Null, Value::Uid(1)]);
    assert_eq!(encode(input), Err(EncodeError::UnsupportedValue));
}

#[test]
fn encode_empty_containers() {
    let a = encode(Value::Dictionary(vec![])).unwrap();
    let expected = archive(
        2,
        vec![
            s("$null"),
            class("NSDictionary"),
            dict(vec![("$class", Value::Uid(1)), ("NS.keys", uids(&[])), ("NS.objects", uids(&[]))]),
        ],
    );
    assert_eq!(a, expected);
}

#[test]
fn encode_no_descriptor_for_absent_kind() {
    let a = encode(dict(vec![("a", Value::Integer(1)), ("b", dict(vec![]))])).unwrap();
    let t = objects(&a);
    assert_eq!(t.iter().filter(|o| describes(o, "NSDictionary")).count(), 1);
    assert_eq!(t.iter().filter(|o| describes(o, "NSArray")).count(), 0);
    let a = encode(Value::Array(vec![Value::Array(vec![]), Value::Integer(4)])).unwrap();
    let t = objects(&a);
    assert_eq!(t.iter().filter(|o| describes(o, "NSDictionary")).count(), 0);
    assert_eq!(t.iter().filter(|o| describes(o, "NSArray")).count(), 1);
}

#[test]
fn encode_reference_before_null_is_invalid() {
    let input = Value::Array(vec![Value::Integer(1), Value::Uid(1), Value::Null]);
    assert_eq!(encode(input), Err(EncodeError::InvalidObjectEncoding));
}

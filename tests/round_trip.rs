use keyed_archive::decode::flatten_root;
use keyed_archive::encode::encode;
use keyed_archive::value::Value;
use nskeyedarchiver_converter::Converter;

fn to_plist(v: &Value) -> plist::Value {
    match v {
        Value::Boolean(b) => plist::Value::Boolean(*b),
        Value::Integer(i) => plist::Value::Integer((*i as i64).into()),
        Value::Real(bits) => plist::Value::Real(f64::from_bits(*bits)),
        Value::String(s) => plist::Value::String(s.clone()),
        Value::Data(d) => plist::Value::Data(d.clone()),
        Value::Array(a) => plist::Value::Array(a.iter().map(to_plist).collect()),
        Value::Dictionary(d) => plist::Value::Dictionary(
            d.iter().map(|(k, x)| (k.clone(), to_plist(x))).collect(),
        ),
        Value::Uid(u) => plist::Value::Uid(plist::Uid::new(*u)),
        other => panic!("no plist form in these tests: {other:?}"),
    }
}

fn from_plist(v: &plist::Value) -> Value {
    match v {
        plist::Value::Boolean(b) => Value::Boolean(*b),
        plist::Value::Integer(i) => Value::Integer(i.as_signed().unwrap() as i128),
        plist::Value::Real(r) => Value::Real(r.to_bits()),
        plist::Value::String(s) => Value::String(s.clone()),
        plist::Value::Data(d) => Value::Data(d.clone()),
        plist::Value::Array(a) => Value::Array(a.iter().map(from_plist).collect()),
        plist::Value::Dictionary(d) => {
            Value::Dictionary(d.iter().map(|(k, x)| (k.clone(), from_plist(x))).collect())
        }
        plist::Value::Uid(u) => Value::Uid(u.get()),
        other => panic!("no library form in these tests: {other:?}"),
    }
}

fn encode_to_bytes(v: &plist::Value) -> Vec<u8> {
    let archive = encode(from_plist(v)).unwrap();
    let mut buf = Vec::new();
    plist::to_writer_binary(&mut buf, &to_plist(&archive)).unwrap();
    buf
}

fn from_bytes(b: &[u8]) -> plist::Value {
    let raw = Converter::from_bytes(b).unwrap().decode().unwrap();
    to_plist(&flatten_root(&from_plist(&raw)))
}

#[test]
fn it_works() {
    let mut d = plist::Dictionary::new();
    let a = plist::Value::Array(vec!["a".into(), 1.into()]);
    d.insert("asdf".into(), "qwer".into());
    d.insert("reeeeee".to_string(), a);

    let mut d_d = plist::Dictionary::new();
    d_d.insert("fortnite".into(), plist::Value::Boolean(false));
    d.insert("good games".into(), d_d.into());

    let b = encode_to_bytes(&d.clone().into());
    let d1 = from_bytes(&b);
    assert_eq!(plist::Value::Dictionary(d), d1);

    let s = plist::Value::String("asdf".into());
    let b = encode_to_bytes(&s);
    let s1 = from_bytes(&b);
    assert_eq!(s, s1);
}

#[test]
fn round_trip_scalar_map() {
    let mut d = plist::Dictionary::new();
    d.insert("int".into(), 42.into());
    d.insert("neg".into(), (-7i64).into());
    d.insert("real".into(), plist::Value::Real(2.5));
    d.insert("yes".into(), true.into());
    d.insert("text".into(), "hello".into());
    d.insert("bytes".into(), plist::Value::Data(vec![0, 1, 255]));
    let m = plist::Value::Dictionary(d);
    assert_eq!(from_bytes(&encode_to_bytes(&m)), m);
}

#[test]
fn round_trip_root_string() {
    let s = plist::Value::String("bare".into());
    assert_eq!(from_bytes(&encode_to_bytes(&s)), s);
}

#[test]
fn null_string_is_encoded_as_sentinel_reference() {
    let mut d = plist::Dictionary::new();
    d.insert("k".into(), "$null".into());
    let archive = encode(from_plist(&plist::Value::Dictionary(d))).unwrap();
    let t = match &archive {
        Value::Dictionary(e) => match &e[3].1 {
            Value::Array(t) => t.clone(),
            _ => panic!("no object table"),
        },
        _ => panic!("not a dictionary"),
    };
    let record = t.last().unwrap();
    match record {
        Value::Dictionary(e) => assert_eq!(e[2].1, Value::Array(vec![Value::Uid(0)])),
        _ => panic!("not a record"),
    }
}

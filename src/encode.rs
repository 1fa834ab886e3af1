//! The encoder: turns a structured value into a keyed archive, a flat table of
//! objects in which containers refer to their children by position.
use crate::value::{
    copy_bytes, entries_view, find_entry, lemma_entries_view, lemma_entries_view_push, lemma_find_key,
    lemma_seq_view, lemma_seq_view_push, lookup, seq_view, value_view, Entries, Value, ValueModel,
};
use vstd::prelude::*;

verus! {

broadcast use vstd::std_specs::vec::group_vec_axioms;

/// Why a value has no encoding.
#[derive(Debug, Clone, Copy, PartialEq, Eq, Structural)]
pub enum EncodeError {
    /// A reference was found among the input; references are output only.
    InvalidObjectEncoding,
    /// The input holds a kind of value that has no encoding (a null).
    UnsupportedValue,
}

/// The format version written into every archive.
pub const ARCHIVER_VERSION: i128 = 100000;

/// The string that stands at position 0 of every object table.
pub open spec fn null_name() -> Seq<char> {
    "$null"@
}

pub open spec fn dictionary_class() -> Seq<char> {
    "NSDictionary"@
}

pub open spec fn array_class() -> Seq<char> {
    "NSArray"@
}

/// The class-descriptor record for the class `name`.
pub open spec fn class_record(name: Seq<char>) -> ValueModel {
    ValueModel::Dictionary(
        seq![
            ("$classes"@, ValueModel::Array(seq![ValueModel::String(name), ValueModel::String("NSObject"@)])),
            ("$classname"@, ValueModel::String(name)),
        ],
    )
}

/// `obj` is a class-descriptor record whose class list starts with `name`.
pub open spec fn describes_class(obj: ValueModel, name: Seq<char>) -> bool {
    match obj {
        ValueModel::Dictionary(d) => match lookup(d, "$classes"@) {
            Some(ValueModel::Array(cs)) => cs.len() > 0 && cs[0] == ValueModel::String(name),
            _ => false,
        },
        _ => false,
    }
}

/// The first position of a descriptor of `name` in the table `t`.
pub open spec fn class_index(t: Seq<ValueModel>, name: Seq<char>) -> Option<int>
    decreases t.len(),
{
    if t.len() == 0 {
        None
    } else {
        match class_index(t.drop_last(), name) {
            Some(i) => Some(i),
            None => if describes_class(t.last(), name) {
                Some(t.len() - 1)
            } else {
                None
            },
        }
    }
}

/// The table after asking for the descriptor of `name`, and its position:
/// an existing descriptor is reused, else a new one is appended.
pub open spec fn class_ref(t: Seq<ValueModel>, name: Seq<char>) -> (Seq<ValueModel>, nat) {
    match class_index(t, name) {
        Some(i) => (t, i as nat),
        None => (t.push(class_record(name)), t.len()),
    }
}

/// References to the positions `us`.
pub open spec fn uid_seq(us: Seq<nat>) -> Seq<ValueModel> {
    Seq::new(us.len(), |i: int| ValueModel::Uid(us[i]))
}

/// The container record of an array.
pub open spec fn array_record(class: nat, objs: Seq<nat>) -> ValueModel {
    ValueModel::Dictionary(
        seq![
            ("$class"@, ValueModel::Uid(class)),
            ("NS.objects"@, ValueModel::Array(uid_seq(objs))),
        ],
    )
}

/// The container record of a dictionary.
pub open spec fn dictionary_record(class: nat, keys: Seq<nat>, objs: Seq<nat>) -> ValueModel {
    ValueModel::Dictionary(
        seq![
            ("$class"@, ValueModel::Uid(class)),
            ("NS.keys"@, ValueModel::Array(uid_seq(keys))),
            ("NS.objects"@, ValueModel::Array(uid_seq(objs))),
        ],
    )
}

/// Encoding `v` onto the table `t`: the table that results and the position
/// that stands for `v`, or the error.
pub open spec fn encoded(v: ValueModel, t: Seq<ValueModel>) -> Result<
    (Seq<ValueModel>, nat),
    EncodeError,
>
    decreases v,
{
    match v {
        ValueModel::Uid(_) => Err(EncodeError::InvalidObjectEncoding),
        ValueModel::Null => Err(EncodeError::UnsupportedValue),
        ValueModel::String(s) => Ok(encoded_string(s, t)),
        ValueModel::Array(items) => match encoded_items(items, t) {
            Ok((t1, us)) => {
                let (t2, c) = class_ref(t1, array_class());
                Ok((t2.push(array_record(c, us)), t2.len()))
            },
            Err(e) => Err(e),
        },
        ValueModel::Dictionary(d) => match encoded_entries(d, t) {
            Ok((t1, ks, vs)) => {
                let (t2, c) = class_ref(t1, dictionary_class());
                Ok((t2.push(dictionary_record(c, ks, vs)), t2.len()))
            },
            Err(e) => Err(e),
        },
        _ => Ok((t.push(v), t.len())),
    }
}

/// Encoding a string: the sentinel string refers to position 0, any other
/// string is appended.
pub open spec fn encoded_string(s: Seq<char>, t: Seq<ValueModel>) -> (Seq<ValueModel>, nat) {
    if s == null_name() {
        (t, 0)
    } else {
        (t.push(ValueModel::String(s)), t.len())
    }
}

/// Encoding the elements of a sequence in order.
pub open spec fn encoded_items(items: Seq<ValueModel>, t: Seq<ValueModel>) -> Result<
    (Seq<ValueModel>, Seq<nat>),
    EncodeError,
>
    decreases items,
{
    if items.len() == 0 {
        Ok((t, Seq::empty()))
    } else {
        match encoded_items(items.subrange(0, items.len() - 1), t) {
            Ok((t1, us)) => match encoded(items[items.len() - 1], t1) {
                Ok((t2, u)) => Ok((t2, us.push(u))),
                Err(e) => Err(e),
            },
            Err(e) => Err(e),
        }
    }
}

/// Encoding the entries of a dictionary in order: each key, then its value.
pub open spec fn encoded_entries(d: Entries, t: Seq<ValueModel>) -> Result<
    (Seq<ValueModel>, Seq<nat>, Seq<nat>),
    EncodeError,
>
    decreases d,
{
    if d.len() == 0 {
        Ok((t, Seq::empty(), Seq::empty()))
    } else {
        match encoded_entries(d.subrange(0, d.len() - 1), t) {
            Ok((t1, ks, vs)) => {
                let (t2, k) = encoded_string(d[d.len() - 1].0, t1);
                match encoded(d[d.len() - 1].1, t2) {
                    Ok((t3, u)) => Ok((t3, ks.push(k), vs.push(u))),
                    Err(e) => Err(e),
                }
            },
            Err(e) => Err(e),
        }
    }
}

/// The archive whose table is `t` and whose root is at position `root`.
pub open spec fn archive(root: nat, t: Seq<ValueModel>) -> ValueModel {
    ValueModel::Dictionary(
        seq![
            ("$archiver"@, ValueModel::String("NSKeyedArchiver"@)),
            ("$version"@, ValueModel::Integer(ARCHIVER_VERSION as int)),
            ("$top"@, ValueModel::Dictionary(seq![("root"@, ValueModel::Uid(root))])),
            ("$objects"@, ValueModel::Array(t)),
        ],
    )
}

/// The table that every encoding starts from.
pub open spec fn initial_table() -> Seq<ValueModel> {
    seq![ValueModel::String(null_name())]
}

/// The archive of `v`, or why there is none.
pub open spec fn archive_of(v: ValueModel) -> Result<ValueModel, EncodeError> {
    match encoded(v, initial_table()) {
        Ok((t, root)) => Ok(archive(root, t)),
        Err(e) => Err(e),
    }
}

pub proof fn lemma_class_index(t: Seq<ValueModel>, name: Seq<char>)
    ensures
        match class_index(t, name) {
            Some(i) => 0 <= i < t.len() && describes_class(t[i], name) && forall|j: int|
                0 <= j < i ==> !describes_class(t[j], name),
            None => forall|j: int| 0 <= j < t.len() ==> !describes_class(t[j], name),
        },
    decreases t.len(),
{
    if t.len() > 0 {
        lemma_class_index(t.drop_last(), name);
        assert(forall|j: int| 0 <= j < t.len() - 1 ==> t.drop_last()[j] == t[j]);
    }
}

/// An error in encoding a prefix of a sequence is the error of the whole.
pub proof fn lemma_items_error(items: Seq<ValueModel>, k: int, t: Seq<ValueModel>)
    requires
        0 <= k <= items.len(),
        encoded_items(items.subrange(0, k), t) is Err,
    ensures
        encoded_items(items, t) == encoded_items(items.subrange(0, k), t),
    decreases items.len(),
{
    if k < items.len() {
        let p = items.subrange(0, items.len() - 1);
        assert(p.subrange(0, k) =~= items.subrange(0, k));
        lemma_items_error(p, k, t);
    } else {
        assert(items.subrange(0, k) =~= items);
    }
}

/// An error in encoding a prefix of a dictionary's entries is the error of
/// the whole.
pub proof fn lemma_entries_error(d: Entries, k: int, t: Seq<ValueModel>)
    requires
        0 <= k <= d.len(),
        encoded_entries(d.subrange(0, k), t) is Err,
    ensures
        encoded_entries(d, t) == encoded_entries(d.subrange(0, k), t),
    decreases d.len(),
{
    if k < d.len() {
        let p = d.subrange(0, d.len() - 1);
        assert(p.subrange(0, k) =~= d.subrange(0, k));
        lemma_entries_error(p, k, t);
    } else {
        assert(d.subrange(0, k) =~= d);
    }
}

/// The sentinel string, wherever it stands, is encoded as a reference to
/// position 0 and adds nothing to the table.
pub proof fn lemma_null_string_collapses(t: Seq<ValueModel>)
    ensures
        encoded(ValueModel::String(null_name()), t) == Ok::<_, EncodeError>((t, 0nat)),
{
}

/// A reference occurs somewhere in `v`.
pub open spec fn has_uid(v: ValueModel) -> bool
    decreases v,
{
    match v {
        ValueModel::Uid(_) => true,
        ValueModel::Array(s) => exists|i: int| 0 <= i < s.len() && has_uid(#[trigger] s[i]),
        ValueModel::Dictionary(d) => exists|i: int| 0 <= i < d.len() && has_uid(#[trigger] d[i].1),
        _ => false,
    }
}

/// The error of the first value without an encoding that the encoder meets,
/// in its order (a null or a reference); `None` when there is none.
pub open spec fn first_unencodable(v: ValueModel) -> Option<EncodeError>
    decreases v,
{
    match v {
        ValueModel::Uid(_) => Some(EncodeError::InvalidObjectEncoding),
        ValueModel::Null => Some(EncodeError::UnsupportedValue),
        ValueModel::Array(items) => first_in_items(items),
        ValueModel::Dictionary(d) => first_in_entries(d),
        _ => None,
    }
}

pub open spec fn first_in_items(items: Seq<ValueModel>) -> Option<EncodeError>
    decreases items,
{
    if items.len() == 0 {
        None
    } else {
        match first_in_items(items.subrange(0, items.len() - 1)) {
            Some(e) => Some(e),
            None => first_unencodable(items[items.len() - 1]),
        }
    }
}

pub open spec fn first_in_entries(d: Entries) -> Option<EncodeError>
    decreases d,
{
    if d.len() == 0 {
        None
    } else {
        match first_in_entries(d.subrange(0, d.len() - 1)) {
            Some(e) => Some(e),
            None => first_unencodable(d[d.len() - 1].1),
        }
    }
}

/// An input that holds a reference anywhere is rejected as an invalid
/// object encoding, unless a null is met before it in encoding order.
pub proof fn lemma_reference_rejected(v: ValueModel)
    requires
        has_uid(v),
        first_unencodable(v) != Some(EncodeError::UnsupportedValue),
    ensures
        archive_of(v) == Err::<ValueModel, _>(EncodeError::InvalidObjectEncoding),
{
    lemma_encoded_fails_first(v, initial_table());
    lemma_uid_is_unencodable(v);
}

/// The encoding fails exactly when some value has no encoding, and then with
/// the error of the first such value; an archive is returned otherwise.
pub proof fn lemma_encode_error_is_first(v: ValueModel)
    ensures
        archive_of(v) is Ok <==> first_unencodable(v) is None,
        archive_of(v) matches Err(e) ==> first_unencodable(v) == Some(e),
        has_uid(v) ==> archive_of(v) is Err,
{
    lemma_encoded_fails_first(v, initial_table());
    lemma_uid_is_unencodable(v);
}

/// A value that holds a reference has a first value without an encoding.
pub proof fn lemma_uid_is_unencodable(v: ValueModel)
    ensures
        has_uid(v) ==> first_unencodable(v) is Some,
    decreases v,
{
    match v {
        ValueModel::Array(items) => lemma_items_uid(items),
        ValueModel::Dictionary(d) => lemma_entries_uid(d),
        _ => {},
    }
}

proof fn lemma_items_uid(items: Seq<ValueModel>)
    ensures
        (exists|i: int| 0 <= i < items.len() && has_uid(#[trigger] items[i])) ==> first_in_items(items) is Some,
    decreases items,
{
    if items.len() > 0 {
        let n = items.len() - 1;
        let p = items.subrange(0, n);
        lemma_items_uid(p);
        lemma_uid_is_unencodable(items[n]);
        if exists|i: int| 0 <= i < items.len() && has_uid(#[trigger] items[i]) {
            let i = choose|i: int| 0 <= i < items.len() && has_uid(#[trigger] items[i]);
            if i < n {
                assert(has_uid(p[i]));
            }
        }
    }
}

proof fn lemma_entries_uid(d: Entries)
    ensures
        (exists|i: int| 0 <= i < d.len() && has_uid(#[trigger] d[i].1)) ==> first_in_entries(d) is Some,
    decreases d,
{
    if d.len() > 0 {
        let n = d.len() - 1;
        let p = d.subrange(0, n);
        lemma_entries_uid(p);
        lemma_uid_is_unencodable(d[n].1);
        if exists|i: int| 0 <= i < d.len() && has_uid(#[trigger] d[i].1) {
            let i = choose|i: int| 0 <= i < d.len() && has_uid(#[trigger] d[i].1);
            if i < n {
                assert(has_uid(p[i].1));
            }
        }
    }
}

/// Encoding fails exactly when some value has no encoding, with the error
/// of the first one.
pub proof fn lemma_encoded_fails_first(v: ValueModel, t: Seq<ValueModel>)
    ensures
        encoded(v, t) is Ok <==> first_unencodable(v) is None,
        encoded(v, t) matches Err(e) ==> first_unencodable(v) == Some(e),
    decreases v,
{
    match v {
        ValueModel::Array(items) => lemma_items_fail_first(items, t),
        ValueModel::Dictionary(d) => lemma_entries_fail_first(d, t),
        _ => {},
    }
}

proof fn lemma_items_fail_first(items: Seq<ValueModel>, t: Seq<ValueModel>)
    ensures
        encoded_items(items, t) is Ok <==> first_in_items(items) is None,
        encoded_items(items, t) matches Err(e) ==> first_in_items(items) == Some(e),
    decreases items,
{
    if items.len() > 0 {
        let n = items.len() - 1;
        let p = items.subrange(0, n);
        lemma_items_fail_first(p, t);
        if let Ok((t1, us)) = encoded_items(p, t) {
            lemma_encoded_fails_first(items[n], t1);
        }
    }
}

proof fn lemma_entries_fail_first(d: Entries, t: Seq<ValueModel>)
    ensures
        encoded_entries(d, t) is Ok <==> first_in_entries(d) is None,
        encoded_entries(d, t) matches Err(e) ==> first_in_entries(d) == Some(e),
    decreases d,
{
    if d.len() > 0 {
        let n = d.len() - 1;
        let p = d.subrange(0, n);
        lemma_entries_fail_first(p, t);
        if let Ok((t1, ks, vs)) = encoded_entries(p, t) {
            let (t2, k) = encoded_string(d[n].0, t1);
            lemma_encoded_fails_first(d[n].1, t2);
        }
    }
}

/// Encodes `value` as a keyed archive: a dictionary with the archiver's name,
/// the format version, the reference to the root object, and the object
/// table, which starts with the sentinel string.
pub fn encode(value: Value) -> (r: Result<Value, EncodeError>)
    ensures
        match r {
            Ok(a) => archive_of(value@) == Ok::<_, EncodeError>(a@),
            Err(e) => archive_of(value@) == Err::<ValueModel, _>(e),
        },
{
    let mut objects: Vec<Value> = Vec::new();
    objects.push(Value::String("$null".to_owned()));
    proof {
        lemma_seq_view(objects@);
        assert(seq_view(objects@) =~= initial_table());
    }
    let root = match encode_object(&value, &mut objects) {
        Ok(u) => u,
        Err(e) => return Err(e),
    };
    let mut top: Vec<(String, Value)> = Vec::new();
    top.push(("root".to_owned(), Value::Uid(root)));
    let mut header: Vec<(String, Value)> = Vec::new();
    header.push(("$archiver".to_owned(), Value::String("NSKeyedArchiver".to_owned())));
    header.push(("$version".to_owned(), Value::Integer(ARCHIVER_VERSION)));
    header.push(("$top".to_owned(), Value::Dictionary(top)));
    header.push(("$objects".to_owned(), Value::Array(objects)));
    proof {
        lemma_entries_view(top@);
        lemma_entries_view(header@);
        let (t, u) = encoded(value@, initial_table())->Ok_0;
        assert(entries_view(top@) =~= seq![("root"@, ValueModel::Uid(u))]);
        assert(entries_view(header@) =~= archive(u, t)->Dictionary_0);
    }
    Ok(Value::Dictionary(header))
}

/// Appends `v` to the table and returns its position.
fn push_object(objects: &mut Vec<Value>, v: Value) -> (r: u64)
    ensures
        seq_view(final(objects)@) == seq_view(old(objects)@).push(v@),
        r == seq_view(old(objects)@).len(),
{
    proof {
        lemma_seq_view_push(objects@, v);
        lemma_seq_view(objects@);
    }
    objects.push(v);
    (objects.len() - 1) as u64
}

/// Encodes a string: the sentinel string is not stored again.
fn encode_string(s: &String, objects: &mut Vec<Value>) -> (r: u64)
    ensures
        s@ == null_name() ==> r == 0 && final(objects)@ == old(objects)@,
        (seq_view(final(objects)@), r as nat) == encoded_string(s@, seq_view(old(objects)@)),
{
    let null = "$null".to_owned();
    if *s == null {
        0
    } else {
        push_object(objects, Value::String(s.clone()))
    }
}

/// Whether `obj` is a descriptor record of the class `name`.
fn is_class_descriptor(obj: &Value, name: &String) -> (r: bool)
    ensures
        r == describes_class(obj@, name@),
{
    match obj {
        Value::Dictionary(d) => {
            let classes = "$classes".to_owned();
            proof {
                lemma_entries_view(d@);
                lemma_find_key(entries_view(d@), classes@);
            }
            match find_entry(d, &classes) {
                Some(k) => match &d[k].1 {
                    Value::Array(cs) => {
                        proof {
                            lemma_seq_view(cs@);
                        }
                        if cs.len() > 0 {
                            match &cs[0] {
                                Value::String(n) => *n == *name,
                                _ => false,
                            }
                        } else {
                            false
                        }
                    },
                    _ => false,
                },
                None => false,
            }
        },
        _ => false,
    }
}

/// The position of the descriptor of the class `class_name`, appended first
/// when the table holds none.
fn create_class_reference(class_name: &String, objects: &mut Vec<Value>) -> (r: u64)
    ensures
        (seq_view(final(objects)@), r as nat) == class_ref(seq_view(old(objects)@), class_name@),
{
    proof {
        lemma_seq_view(objects@);
        lemma_class_index(seq_view(objects@), class_name@);
    }
    let mut i: usize = 0;
    while i < objects.len()
        invariant
            i <= objects.len(),
            seq_view(objects@).len() == objects@.len(),
            forall|j: int| 0 <= j < objects@.len() ==> #[trigger] seq_view(objects@)[j] == value_view(objects@[j]),
            match class_index(seq_view(objects@), class_name@) {
                Some(k) => 0 <= k < objects@.len() && describes_class(seq_view(objects@)[k], class_name@) && forall|j: int|
                    0 <= j < k ==> !describes_class(seq_view(objects@)[j], class_name@),
                None => forall|j: int| 0 <= j < objects@.len() ==> !describes_class(seq_view(objects@)[j], class_name@),
            },
            forall|j: int| 0 <= j < i ==> !describes_class(seq_view(objects@)[j], class_name@),
        decreases objects.len() - i,
    {
        if is_class_descriptor(&objects[i], class_name) {
            assert(describes_class(seq_view(objects@)[i as int], class_name@));
            return i as u64;
        }
        i = i + 1;
    }
    let mut classes: Vec<Value> = Vec::new();
    classes.push(Value::String(class_name.clone()));
    classes.push(Value::String("NSObject".to_owned()));
    let mut record: Vec<(String, Value)> = Vec::new();
    record.push(("$classes".to_owned(), Value::Array(classes)));
    record.push(("$classname".to_owned(), Value::String(class_name.clone())));
    proof {
        lemma_seq_view(classes@);
        lemma_entries_view(record@);
        assert(seq_view(classes@) =~= seq![ValueModel::String(class_name@), ValueModel::String("NSObject"@)]);
        assert(value_view(Value::Dictionary(record)) == class_record(class_name@)) by {
            assert(entries_view(record@) =~= class_record(class_name@)->Dictionary_0);
        }
    }
    push_object(objects, Value::Dictionary(record))
}

/// Encodes `value` onto the table and returns the position that stands for
/// it.
fn encode_object(value: &Value, objects: &mut Vec<Value>) -> (r: Result<u64, EncodeError>)
    ensures
        match r {
            Ok(u) => encoded(value@, seq_view(old(objects)@)) == Ok::<_, EncodeError>(
                (seq_view(final(objects)@), u as nat),
            ),
            Err(e) => encoded(value@, seq_view(old(objects)@)) == Err::<(Seq<ValueModel>, nat), _>(e),
        },
        value@ is Uid || value@ is Null ==> final(objects)@ == old(objects)@,
        value@ == ValueModel::String(null_name()) ==> final(objects)@ == old(objects)@,
    decreases value,
{
    match value {
        Value::Null => Err(EncodeError::UnsupportedValue),
        Value::Uid(_) => Err(EncodeError::InvalidObjectEncoding),
        Value::String(s) => Ok(encode_string(s, objects)),
        Value::Array(items) => encode_array(items, objects),
        Value::Dictionary(d) => encode_dictionary(d, objects),
        Value::Boolean(b) => Ok(push_object(objects, Value::Boolean(*b))),
        Value::Integer(i) => Ok(push_object(objects, Value::Integer(*i))),
        Value::Real(bits) => Ok(push_object(objects, Value::Real(*bits))),
        Value::Date(d) => Ok(push_object(objects, Value::Date(*d))),
        Value::Data(d) => Ok(push_object(objects, Value::Data(copy_bytes(d)))),
    }
}

/// Encodes an array: its elements in order, then its class descriptor, then
/// its container record.
fn encode_array(items: &Vec<Value>, objects: &mut Vec<Value>) -> (r: Result<u64, EncodeError>)
    ensures
        match r {
            Ok(u) => encoded(ValueModel::Array(seq_view(items@)), seq_view(old(objects)@)) == Ok::<_, EncodeError>(
                (seq_view(final(objects)@), u as nat),
            ),
            Err(e) => encoded(ValueModel::Array(seq_view(items@)), seq_view(old(objects)@))
                == Err::<(Seq<ValueModel>, nat), _>(e),
        },
    decreases items,
{
    let ghost t0 = seq_view(objects@);
    let ghost sv = seq_view(items@);
    proof {
        lemma_seq_view(items@);
    }
    let mut uids: Vec<Value> = Vec::new();
    let ghost mut us: Seq<nat> = Seq::empty();
    proof {
        assert(sv.subrange(0, 0) =~= Seq::<ValueModel>::empty());
        assert(uid_seq(us) =~= Seq::<ValueModel>::empty());
    }
    let mut i: usize = 0;
    while i < items.len()
        invariant
            i <= items.len(),
            sv == seq_view(items@),
            t0 == seq_view(old(objects)@),
            sv.len() == items@.len(),
            forall|j: int| 0 <= j < items@.len() ==> #[trigger] sv[j] == value_view(items@[j]),
            seq_view(uids@) == uid_seq(us),
            encoded_items(sv.subrange(0, i as int), t0) == Ok::<_, EncodeError>((seq_view(objects@), us)),
        decreases items.len() - i,
    {
        proof {
            assert(decreases_to!(*items => items[i as int]));
            assert(sv.subrange(0, i + 1).subrange(0, i as int) =~= sv.subrange(0, i as int));
            assert(sv.subrange(0, i + 1)[i as int] == value_view(items@[i as int]));
        }
        match encode_object(&items[i], objects) {
            Ok(u) => {
                proof {
                    lemma_seq_view_push(uids@, Value::Uid(u));
                    assert(uid_seq(us.push(u as nat)) =~= uid_seq(us).push(ValueModel::Uid(u as nat)));
                    us = us.push(u as nat);
                }
                uids.push(Value::Uid(u));
                i = i + 1;
            },
            Err(e) => {
                proof {
                    assert(encoded_items(sv.subrange(0, i + 1), t0) == Err::<(Seq<ValueModel>, Seq<nat>), EncodeError>(e));
                    lemma_items_error(sv, i + 1, t0);
                    assert(encoded(ValueModel::Array(sv), t0) == Err::<(Seq<ValueModel>, nat), EncodeError>(e));
                }
                return Err(e);
            },
        }
    }
    proof {
        assert(sv.subrange(0, sv.len() as int) =~= sv);
    }
    let c = create_class_reference(&"NSArray".to_owned(), objects);
    let mut record: Vec<(String, Value)> = Vec::new();
    record.push(("$class".to_owned(), Value::Uid(c)));
    record.push(("NS.objects".to_owned(), Value::Array(uids)));
    proof {
        lemma_entries_view(record@);
        assert(value_view(Value::Dictionary(record)) == array_record(c as nat, us)) by {
            assert(entries_view(record@) =~= array_record(c as nat, us)->Dictionary_0);
        }
    }
    Ok(push_object(objects, Value::Dictionary(record)))
}

/// Encodes a dictionary: each key and then its value, in order, then its
/// class descriptor, then its container record.
fn encode_dictionary(d: &Vec<(String, Value)>, objects: &mut Vec<Value>) -> (r: Result<u64, EncodeError>)
    ensures
        match r {
            Ok(u) => encoded(ValueModel::Dictionary(entries_view(d@)), seq_view(old(objects)@)) == Ok::<_, EncodeError>(
                (seq_view(final(objects)@), u as nat),
            ),
            Err(e) => encoded(ValueModel::Dictionary(entries_view(d@)), seq_view(old(objects)@))
                == Err::<(Seq<ValueModel>, nat), _>(e),
        },
    decreases d,
{
    let ghost t0 = seq_view(objects@);
    let ghost ev = entries_view(d@);
    proof {
        lemma_entries_view(d@);
    }
    let mut key_uids: Vec<Value> = Vec::new();
    let mut value_uids: Vec<Value> = Vec::new();
    let ghost mut ks: Seq<nat> = Seq::empty();
    let ghost mut vs: Seq<nat> = Seq::empty();
    proof {
        assert(ev.subrange(0, 0) =~= Seq::<(Seq<char>, ValueModel)>::empty());
        assert(uid_seq(ks) =~= Seq::<ValueModel>::empty());
    }
    let mut i: usize = 0;
    while i < d.len()
        invariant
            i <= d.len(),
            ev == entries_view(d@),
            t0 == seq_view(old(objects)@),
            ev.len() == d@.len(),
            forall|j: int| 0 <= j < d@.len() ==> #[trigger] ev[j] == (d@[j].0@, value_view(d@[j].1)),
            seq_view(key_uids@) == uid_seq(ks),
            seq_view(value_uids@) == uid_seq(vs),
            encoded_entries(ev.subrange(0, i as int), t0) == Ok::<_, EncodeError>((seq_view(objects@), ks, vs)),
        decreases d.len() - i,
    {
        proof {
            assert(decreases_to!(*d => d[i as int]));
            assert(decreases_to!(d[i as int] => d[i as int].1));
            assert(ev.subrange(0, i + 1).subrange(0, i as int) =~= ev.subrange(0, i as int));
            assert(ev.subrange(0, i + 1)[i as int] == (d@[i as int].0@, value_view(d@[i as int].1)));
        }
        let k = encode_string(&d[i].0, objects);
        match encode_object(&d[i].1, objects) {
            Ok(u) => {
                proof {
                    lemma_seq_view_push(key_uids@, Value::Uid(k));
                    lemma_seq_view_push(value_uids@, Value::Uid(u));
                    assert(uid_seq(ks.push(k as nat)) =~= uid_seq(ks).push(ValueModel::Uid(k as nat)));
                    assert(uid_seq(vs.push(u as nat)) =~= uid_seq(vs).push(ValueModel::Uid(u as nat)));
                    ks = ks.push(k as nat);
                    vs = vs.push(u as nat);
                }
                key_uids.push(Value::Uid(k));
                value_uids.push(Value::Uid(u));
                i = i + 1;
            },
            Err(e) => {
                proof {
                    assert(encoded_entries(ev.subrange(0, i + 1), t0) == Err::<(Seq<ValueModel>, Seq<nat>, Seq<nat>), EncodeError>(e));
                    lemma_entries_error(ev, i + 1, t0);
                }
                return Err(e);
            },
        }
    }
    proof {
        assert(ev.subrange(0, ev.len() as int) =~= ev);
    }
    let c = create_class_reference(&"NSDictionary".to_owned(), objects);
    let mut record: Vec<(String, Value)> = Vec::new();
    record.push(("$class".to_owned(), Value::Uid(c)));
    record.push(("NS.keys".to_owned(), Value::Array(key_uids)));
    record.push(("NS.objects".to_owned(), Value::Array(value_uids)));
    proof {
        lemma_entries_view(record@);
        let m = dictionary_record(c as nat, ks, vs);
        assert(value_view(Value::Dictionary(record)) == m) by {
            assert(entries_view(record@) =~= m->Dictionary_0);
        }
    }
    Ok(push_object(objects, Value::Dictionary(record)))
}

} // verus!

//! The decoding side: a decoded archive's root is a sequence of key/value
//! records, which is rebuilt here into a nested dictionary.
use crate::value::{
    find_key,    entries_view, find_entry, insert_entry, lemma_entries_view, lemma_entries_view_push,
    deep_keys_distinct, keys_distinct, lemma_find_key, lemma_insert_keeps_keys_distinct, lemma_seq_view, lookup, seq_view, value_view, Entries, Value, ValueModel,
};
use vstd::prelude::*;

verus! {

broadcast use vstd::std_specs::vec::group_vec_axioms;

/// The key and the value of a record `{key: k, value: v}` whose key is a
/// string; `None` for anything else.
pub open spec fn record_of(item: ValueModel) -> Option<(Seq<char>, ValueModel)> {
    match item {
        ValueModel::Dictionary(d) => match (lookup(d, "key"@), lookup(d, "value"@)) {
            (Some(ValueModel::String(k)), Some(v)) => Some((k, v)),
            _ => None,
        },
        _ => None,
    }
}

/// Every element of `arr` is a `{key, value}` record with a string key.
pub open spec fn all_records(arr: Seq<ValueModel>) -> bool {
    forall|i: int| 0 <= i < arr.len() ==> record_of(#[trigger] arr[i]) is Some
}

/// A record's value as it is stored in the flattened root: a sequence whose
/// every element is a `{key, value}` record becomes the dictionary of those
/// records; anything else stays as it is.
pub open spec fn grouped(v: ValueModel) -> ValueModel
    decreases 1int, 0int,
{
    match v {
        ValueModel::Array(arr) => if all_records(arr) {
            ValueModel::Dictionary(collect_records(arr, false))
        } else {
            v
        },
        _ => v,
    }
}

/// The dictionary of the records among `items`, in order, a later record
/// with the same key replacing the value of an earlier one. With `nested`,
/// each value is grouped first.
pub open spec fn collect_records(items: Seq<ValueModel>, nested: bool) -> Entries
    decreases (if nested { 1int } else { 0int }), items.len(),
{
    if items.len() == 0 {
        Seq::empty()
    } else {
        let acc = collect_records(items.drop_last(), nested);
        match record_of(items.last()) {
            Some((k, v)) => insert_entry(acc, k, if nested { grouped(v) } else { v }),
            None => acc,
        }
    }
}

/// The flattened form of a decoded root.
pub open spec fn flattened(input: ValueModel) -> ValueModel {
    match input {
        ValueModel::Dictionary(d) => match lookup(d, "root"@) {
            Some(ValueModel::Array(items)) => ValueModel::Dictionary(collect_records(items, true)),
            Some(root) => root,
            None => input,
        },
        _ => input,
    }
}

/// The dictionary that flattening rebuilds from a sequence of records holds
/// each key once.
pub proof fn lemma_flatten_keys_distinct(input: ValueModel)
    ensures
        match input {
            ValueModel::Dictionary(d) => match lookup(d, "root"@) {
                Some(ValueModel::Array(_)) => flattened(input) is Dictionary && keys_distinct(
                    flattened(input)->Dictionary_0,
                ),
                _ => true,
            },
            _ => true,
        },
{
    if let ValueModel::Dictionary(d) = input {
        if let Some(ValueModel::Array(items)) = lookup(d, "root"@) {
            lemma_collect_keys_distinct(items, true);
        }
    }
}

/// Flattening keeps every key once at every depth: where each dictionary of
/// the input holds each key once, so does each dictionary of the result.
pub proof fn lemma_flatten_keeps_keys_distinct(input: ValueModel)
    requires
        deep_keys_distinct(input),
    ensures
        deep_keys_distinct(flattened(input)),
{
    if let ValueModel::Dictionary(d) = input {
        lemma_find_key(d, "root"@);
        if let Some(ValueModel::Array(items)) = lookup(d, "root"@) {
            let i = find_key(d, "root"@)->Some_0;
            assert(deep_keys_distinct(d[i].1));
            lemma_collect_keys_distinct(items, true);
        }
    }
}

proof fn lemma_record_value_keys_distinct(item: ValueModel)
    requires
        deep_keys_distinct(item),
    ensures
        record_of(item) matches Some((k, v)) ==> deep_keys_distinct(v),
{
    if let ValueModel::Dictionary(d) = item {
        lemma_find_key(d, "value"@);
    }
}

proof fn lemma_grouped_keys_distinct(v: ValueModel)
    requires
        deep_keys_distinct(v),
    ensures
        deep_keys_distinct(grouped(v)),
    decreases 1int, 0int,
{
    if let ValueModel::Array(arr) = v {
        if all_records(arr) {
            lemma_collect_keys_distinct(arr, false);
        }
    }
}

proof fn lemma_collect_keys_distinct(items: Seq<ValueModel>, nested: bool)
    ensures
        keys_distinct(collect_records(items, nested)),
        (forall|i: int| 0 <= i < items.len() ==> deep_keys_distinct(#[trigger] items[i])) ==> deep_keys_distinct(
            ValueModel::Dictionary(collect_records(items, nested)),
        ),
    decreases (if nested { 1int } else { 0int }), items.len(),
{
    if items.len() > 0 {
        lemma_collect_keys_distinct(items.drop_last(), nested);
        assert(forall|i: int| 0 <= i < items.len() - 1 ==> items.drop_last()[i] == items[i]);
        if forall|i: int| 0 <= i < items.len() ==> deep_keys_distinct(#[trigger] items[i]) {
            assert(deep_keys_distinct(items[items.len() - 1]));
            lemma_record_value_keys_distinct(items.last());
            if let Some((k, v)) = record_of(items.last()) {
                if nested {
                    lemma_grouped_keys_distinct(v);
                }
            }
        }
        if let Some((k, v)) = record_of(items.last()) {
            lemma_insert_keeps_keys_distinct(
                collect_records(items.drop_last(), nested),
                k,
                if nested { grouped(v) } else { v },
            );
        }
    }
}

/// Binds `key` to `value` in the dictionary entries `d`, in place where the
/// key is present, at the end where it is not.
pub fn dict_insert(d: &mut Vec<(String, Value)>, key: String, value: Value)
    ensures
        entries_view(final(d)@) == insert_entry(entries_view(old(d)@), key@, value@),
{
    proof {
        lemma_entries_view(d@);
        lemma_find_key(entries_view(d@), key@);
    }
    match find_entry(d, &key) {
        Some(i) => {
            let ghost before = d@;
            let ghost kv = key@;
            let ghost vv = value@;
            d.set(i, (key, value));
            proof {
                lemma_entries_view(d@);
                assert(entries_view(d@) =~= entries_view(before).update(i as int, (kv, vv)));
            }
        },
        None => {
            proof {
                lemma_entries_view_push(d@, (key, value));
            }
            d.push((key, value));
        },
    }
}

/// The key and a copy of the value of the record `item`.
fn record_entry(item: &Value) -> (r: Option<(String, Value)>)
    ensures
        match r {
            Some(e) => record_of(item@) == Some((e.0@, e.1@)),
            None => record_of(item@) is None,
        },
{
    match item {
        Value::Dictionary(d) => {
            let key_name = "key".to_owned();
            let value_name = "value".to_owned();
            proof {
                lemma_entries_view(d@);
                lemma_find_key(entries_view(d@), key_name@);
                lemma_find_key(entries_view(d@), value_name@);
            }
            match (find_entry(d, &key_name), find_entry(d, &value_name)) {
                (Some(k), Some(v)) => match &d[k].1 {
                    Value::String(key) => Some((key.clone(), d[v].1.deep_copy())),
                    _ => None,
                },
                _ => None,
            }
        },
        _ => None,
    }
}

/// Whether `item` is a `{key, value}` record with a string key.
fn is_record(item: &Value) -> (r: bool)
    ensures
        r == record_of(item@) is Some,
{
    match item {
        Value::Dictionary(d) => {
            let key_name = "key".to_owned();
            let value_name = "value".to_owned();
            proof {
                lemma_entries_view(d@);
                lemma_find_key(entries_view(d@), key_name@);
                lemma_find_key(entries_view(d@), value_name@);
            }
            match (find_entry(d, &key_name), find_entry(d, &value_name)) {
                (Some(k), Some(_)) => match &d[k].1 {
                    Value::String(_) => true,
                    _ => false,
                },
                _ => false,
            }
        },
        _ => false,
    }
}

/// Whether every element of `arr` is a `{key, value}` record.
fn all_records_exec(arr: &Vec<Value>) -> (r: bool)
    ensures
        r == all_records(seq_view(arr@)),
{
    proof {
        lemma_seq_view(arr@);
    }
    let mut i: usize = 0;
    while i < arr.len()
        invariant
            i <= arr.len(),
            seq_view(arr@).len() == arr@.len(),
            forall|j: int| 0 <= j < arr@.len() ==> #[trigger] seq_view(arr@)[j] == value_view(arr@[j]),
            forall|j: int| 0 <= j < i ==> record_of(#[trigger] seq_view(arr@)[j]) is Some,
        decreases arr.len() - i,
    {
        if !is_record(&arr[i]) {
            assert(record_of(seq_view(arr@)[i as int]) is None);
            return false;
        }
        i = i + 1;
    }
    true
}

/// A record's value grouped as the flattened root stores it.
fn group_value(v: Value) -> (r: Value)
    ensures
        r@ == grouped(v@),
    decreases 1int, 0int,
{
    match v {
        Value::Array(arr) => if all_records_exec(&arr) {
            Value::Dictionary(collect(&arr, false))
        } else {
            Value::Array(arr)
        },
        other => other,
    }
}

/// The dictionary of the records among `items`.
fn collect(items: &Vec<Value>, nested: bool) -> (r: Vec<(String, Value)>)
    ensures
        entries_view(r@) == collect_records(seq_view(items@), nested),
    decreases (if nested { 1int } else { 0int }), items@.len(),
{
    let ghost sv = seq_view(items@);
    proof {
        lemma_seq_view(items@);
        assert(sv.subrange(0, 0) =~= Seq::<ValueModel>::empty());
    }
    let mut r: Vec<(String, Value)> = Vec::new();
    let mut i: usize = 0;
    while i < items.len()
        invariant
            i <= items.len(),
            sv == seq_view(items@),
            sv.len() == items@.len(),
            forall|j: int| 0 <= j < items@.len() ==> #[trigger] sv[j] == value_view(items@[j]),
            entries_view(r@) == collect_records(sv.subrange(0, i as int), nested),
        decreases items.len() - i,
    {
        proof {
            assert(sv.subrange(0, i + 1).drop_last() =~= sv.subrange(0, i as int));
            assert(sv.subrange(0, i + 1).last() == value_view(items@[i as int]));
        }
        match record_entry(&items[i]) {
            Some(e) => {
                let (k, v) = e;
                let stored = if nested {
                    group_value(v)
                } else {
                    v
                };
                dict_insert(&mut r, k, stored);
            },
            None => {},
        }
        i = i + 1;
    }
    proof {
        assert(sv.subrange(0, sv.len() as int) =~= sv);
    }
    r
}

/// Rebuilds a decoded archive root into a nested dictionary.
///
/// A dictionary whose `root` is a sequence of `{key, value}` records becomes
/// the dictionary of those records; a record's value that is a sequence whose
/// every element is such a record becomes, one level deep, the dictionary of
/// those records, and any other value is kept verbatim.
/// Records without a string key or without a value are skipped. A `root`
/// that is not a sequence is returned as it is; an input that is not a
/// dictionary, or has no `root`, is returned unchanged.
pub fn flatten_root(input: &Value) -> (r: Value)
    ensures
        r@ == flattened(input@),
{
    match input {
        Value::Dictionary(d) => {
            let root_name = "root".to_owned();
            proof {
                lemma_entries_view(d@);
                lemma_find_key(entries_view(d@), root_name@);
            }
            match find_entry(d, &root_name) {
                Some(i) => match &d[i].1 {
                    Value::Array(items) => Value::Dictionary(collect(items, true)),
                    root => root.deep_copy(),
                },
                None => input.deep_copy(),
            }
        },
        _ => input.deep_copy(),
    }
}

} // verus!

//! The structured value that both directions of the codec work on, and its
//! mathematical model.
use vstd::prelude::*;

verus! {

broadcast use vstd::std_specs::vec::group_vec_axioms;

/// A structured value: the scalar kinds, ordered sequences, string-keyed
/// dictionaries, and the output-only reference kind.
///
/// A real number is held as the bit pattern of its IEEE-754 double, a date as
/// signed nanoseconds since the Unix epoch. A dictionary keeps its entries in
/// insertion order.
#[derive(Debug, PartialEq)]
pub enum Value {
    Null,
    Boolean(bool),
    Integer(i128),
    Real(u64),
    String(String),
    Date(i128),
    Data(Vec<u8>),
    Array(Vec<Value>),
    Dictionary(Vec<(String, Value)>),
    Uid(u64),
}

/// The mathematical model of a `Value`.
pub ghost enum ValueModel {
    Null,
    Boolean(bool),
    Integer(int),
    Real(u64),
    String(Seq<char>),
    Date(int),
    Data(Seq<u8>),
    Array(Seq<ValueModel>),
    Dictionary(Seq<(Seq<char>, ValueModel)>),
    Uid(nat),
}

/// Dictionary entries, modelled.
pub type Entries = Seq<(Seq<char>, ValueModel)>;

impl View for Value {
    type V = ValueModel;

    open spec fn view(&self) -> ValueModel {
        value_view(*self)
    }
}

pub open spec fn value_view(v: Value) -> ValueModel
    decreases v,
{
    match v {
        Value::Null => ValueModel::Null,
        Value::Boolean(b) => ValueModel::Boolean(b),
        Value::Integer(i) => ValueModel::Integer(i as int),
        Value::Real(bits) => ValueModel::Real(bits),
        Value::String(s) => ValueModel::String(s@),
        Value::Date(d) => ValueModel::Date(d as int),
        Value::Data(d) => ValueModel::Data(d@),
        Value::Array(a) => ValueModel::Array(seq_view(a@)),
        Value::Dictionary(d) => ValueModel::Dictionary(entries_view(d@)),
        Value::Uid(u) => ValueModel::Uid(u as nat),
    }
}

/// The models of a sequence of values.
pub open spec fn seq_view(s: Seq<Value>) -> Seq<ValueModel>
    decreases s,
{
    if s.len() == 0 {
        Seq::empty()
    } else {
        seq_view(s.drop_last()).push(value_view(s.last()))
    }
}

/// The models of a sequence of dictionary entries.
pub open spec fn entries_view(s: Seq<(String, Value)>) -> Entries
    decreases s,
{
    if s.len() == 0 {
        Seq::empty()
    } else {
        entries_view(s.drop_last()).push((s.last().0@, value_view(s.last().1)))
    }
}

pub proof fn lemma_seq_view(s: Seq<Value>)
    ensures
        seq_view(s).len() == s.len(),
        forall|i: int| 0 <= i < s.len() ==> #[trigger] seq_view(s)[i] == value_view(s[i]),
    decreases s.len(),
{
    if s.len() > 0 {
        lemma_seq_view(s.drop_last());
    }
}

pub proof fn lemma_entries_view(s: Seq<(String, Value)>)
    ensures
        entries_view(s).len() == s.len(),
        forall|i: int|
            0 <= i < s.len() ==> #[trigger] entries_view(s)[i] == (s[i].0@, value_view(s[i].1)),
    decreases s.len(),
{
    if s.len() > 0 {
        lemma_entries_view(s.drop_last());
    }
}

pub proof fn lemma_seq_view_push(s: Seq<Value>, v: Value)
    ensures
        seq_view(s.push(v)) == seq_view(s).push(value_view(v)),
{
    assert(s.push(v).drop_last() =~= s);
}

pub proof fn lemma_entries_view_push(s: Seq<(String, Value)>, e: (String, Value))
    ensures
        entries_view(s.push(e)) == entries_view(s).push((e.0@, value_view(e.1))),
{
    assert(s.push(e).drop_last() =~= s);
}

/// A copy of the bytes `b`.
pub fn copy_bytes(b: &Vec<u8>) -> (r: Vec<u8>)
    ensures
        r@ == b@,
{
    let mut r: Vec<u8> = Vec::new();
    let mut i: usize = 0;
    while i < b.len()
        invariant
            i <= b.len(),
            r@ == b@.subrange(0, i as int),
        decreases b.len() - i,
    {
        r.push(b[i]);
        i = i + 1;
        assert(r@ =~= b@.subrange(0, i as int));
    }
    assert(r@ =~= b@);
    r
}

impl Value {
    /// A copy of this value, with the same model.
    pub fn deep_copy(&self) -> (r: Value)
        ensures
            r@ == self@,
        decreases self,
    {
        match self {
            Value::Null => Value::Null,
            Value::Boolean(b) => Value::Boolean(*b),
            Value::Integer(i) => Value::Integer(*i),
            Value::Real(bits) => Value::Real(*bits),
            Value::String(s) => Value::String(s.clone()),
            Value::Date(d) => Value::Date(*d),
            Value::Data(d) => Value::Data(copy_bytes(d)),
            Value::Uid(u) => Value::Uid(*u),
            Value::Array(a) => Value::Array(copy_items(a)),
            Value::Dictionary(d) => Value::Dictionary(copy_entries(d)),
        }
    }
}

/// A copy of a sequence of values, with the same models.
pub fn copy_items(a: &Vec<Value>) -> (r: Vec<Value>)
    ensures
        seq_view(r@) == seq_view(a@),
    decreases a,
{
    let mut r: Vec<Value> = Vec::new();
    let mut i: usize = 0;
    while i < a.len()
        invariant
            i <= a.len(),
            seq_view(r@) == seq_view(a@.subrange(0, i as int)),
        decreases a.len() - i,
    {
        proof {
            assert(decreases_to!(*a => a[i as int]));
        }
        let c = a[i].deep_copy();
        proof {
            lemma_seq_view_push(r@, c);
            lemma_seq_view_push(a@.subrange(0, i as int), a@[i as int]);
            assert(a@.subrange(0, i as int).push(a@[i as int]) =~= a@.subrange(0, i + 1));
        }
        r.push(c);
        i = i + 1;
    }
    assert(a@.subrange(0, a@.len() as int) =~= a@);
    r
}

/// A copy of a sequence of dictionary entries, with the same models.
pub fn copy_entries(d: &Vec<(String, Value)>) -> (r: Vec<(String, Value)>)
    ensures
        entries_view(r@) == entries_view(d@),
    decreases d,
{
    let mut r: Vec<(String, Value)> = Vec::new();
    let mut i: usize = 0;
    while i < d.len()
        invariant
            i <= d.len(),
            entries_view(r@) == entries_view(d@.subrange(0, i as int)),
        decreases d.len() - i,
    {
        proof {
            assert(decreases_to!(*d => d[i as int]));
            assert(decreases_to!(d[i as int] => d[i as int].1));
        }
        let e = (d[i].0.clone(), d[i].1.deep_copy());
        proof {
            lemma_entries_view_push(r@, e);
            lemma_entries_view_push(d@.subrange(0, i as int), d@[i as int]);
            assert(d@.subrange(0, i as int).push(d@[i as int]) =~= d@.subrange(0, i + 1));
        }
        r.push(e);
        i = i + 1;
    }
    assert(d@.subrange(0, d@.len() as int) =~= d@);
    r
}

/// The first position of `key` among the keys of `d`.
pub open spec fn find_key(d: Entries, key: Seq<char>) -> Option<int>
    decreases d.len(),
{
    if d.len() == 0 {
        None
    } else {
        match find_key(d.drop_last(), key) {
            Some(i) => Some(i),
            None => if d.last().0 == key {
                Some(d.len() - 1)
            } else {
                None
            },
        }
    }
}

/// The value stored under `key` in `d` (its first entry with that key).
pub open spec fn lookup(d: Entries, key: Seq<char>) -> Option<ValueModel> {
    match find_key(d, key) {
        Some(i) => Some(d[i].1),
        None => None,
    }
}

/// `d` with `key` bound to `v`: an existing entry keeps its position and
/// takes the new value; a new key goes to the end.
pub open spec fn insert_entry(d: Entries, key: Seq<char>, v: ValueModel) -> Entries {
    match find_key(d, key) {
        Some(i) => d.update(i, (key, v)),
        None => d.push((key, v)),
    }
}

/// No key occurs twice.
pub open spec fn keys_distinct(d: Entries) -> bool {
    forall|i: int, j: int| 0 <= i < j < d.len() ==> d[i].0 != d[j].0
}

/// Every dictionary in `v`, at any depth, holds each key once.
pub open spec fn deep_keys_distinct(v: ValueModel) -> bool
    decreases v,
{
    match v {
        ValueModel::Array(s) => forall|i: int| 0 <= i < s.len() ==> deep_keys_distinct(#[trigger] s[i]),
        ValueModel::Dictionary(d) => keys_distinct(d) && forall|i: int|
            0 <= i < d.len() ==> deep_keys_distinct(#[trigger] d[i].1),
        _ => true,
    }
}

pub proof fn lemma_insert_keeps_keys_distinct(d: Entries, key: Seq<char>, v: ValueModel)
    requires
        keys_distinct(d),
    ensures
        keys_distinct(insert_entry(d, key, v)),
        (forall|i: int| 0 <= i < d.len() ==> deep_keys_distinct(#[trigger] d[i].1)) && deep_keys_distinct(v)
            ==> forall|i: int|
            0 <= i < insert_entry(d, key, v).len() ==> deep_keys_distinct(#[trigger] insert_entry(d, key, v)[i].1),
{
    lemma_find_key(d, key);
}

pub proof fn lemma_find_key(d: Entries, key: Seq<char>)
    ensures
        match find_key(d, key) {
            Some(i) => 0 <= i < d.len() && d[i].0 == key && forall|j: int|
                0 <= j < i ==> d[j].0 != key,
            None => forall|j: int| 0 <= j < d.len() ==> d[j].0 != key,
        },
    decreases d.len(),
{
    if d.len() > 0 {
        lemma_find_key(d.drop_last(), key);
        assert(forall|j: int| 0 <= j < d.len() - 1 ==> d.drop_last()[j] == d[j]);
    }
}

/// Looks up `key` in `d` and returns the position of its first entry.
pub fn find_entry(d: &Vec<(String, Value)>, key: &String) -> (r: Option<usize>)
    ensures
        match r {
            Some(i) => find_key(entries_view(d@), key@) == Some(i as int),
            None => find_key(entries_view(d@), key@) is None,
        },
{
    proof {
        lemma_entries_view(d@);
        lemma_find_key(entries_view(d@), key@);
    }
    let mut i: usize = 0;
    while i < d.len()
        invariant
            i <= d.len(),
            forall|j: int| 0 <= j < i ==> entries_view(d@)[j].0 != key@,
            entries_view(d@).len() == d@.len(),
            forall|j: int| 0 <= j < d@.len() ==> #[trigger] entries_view(d@)[j] == (d@[j].0@, value_view(d@[j].1)),
            match find_key(entries_view(d@), key@) {
                Some(k) => 0 <= k < d.len() && entries_view(d@)[k].0 == key@ && forall|j: int|
                    0 <= j < k ==> entries_view(d@)[j].0 != key@,
                None => forall|j: int| 0 <= j < d.len() ==> entries_view(d@)[j].0 != key@,
            },
        decreases d.len() - i,
    {
        if d[i].0 == *key {
            assert(entries_view(d@)[i as int].0 == key@);
            return Some(i);
        }
        i = i + 1;
    }
    None
}

} // verus!

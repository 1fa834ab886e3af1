//! What every object table built by the encoder satisfies: it starts with the
//! sentinel, each entry refers only to entries before it, and no class has
//! two descriptors.
use crate::encode::{
    archive, array_class, array_record, class_index, class_record, class_ref, describes_class,
    dictionary_class, dictionary_record, archive_of, encoded, encoded_entries, encoded_items,
    encoded_string, initial_table, lemma_class_index, null_name, uid_seq, EncodeError,
};
use crate::value::{deep_keys_distinct, find_key, keys_distinct, lookup, Entries, ValueModel};
use vstd::prelude::*;

verus! {

/// Every reference inside `v` names a position below `n`.
pub open spec fn refs_below(v: ValueModel, n: nat) -> bool
    decreases v,
{
    match v {
        ValueModel::Uid(u) => u < n,
        ValueModel::Array(s) => forall|i: int| 0 <= i < s.len() ==> refs_below(#[trigger] s[i], n),
        ValueModel::Dictionary(d) => forall|i: int|
            0 <= i < d.len() ==> refs_below(#[trigger] d[i].1, n),
        _ => true,
    }
}

/// No two entries of `t` describe the same class.
pub open spec fn classes_unique(t: Seq<ValueModel>) -> bool {
    forall|i: int, j: int, name: Seq<char>|
        0 <= i < j < t.len() && #[trigger] describes_class(t[i], name) ==> !#[trigger] describes_class(
            t[j],
            name,
        )
}

/// The table starts with the sentinel, each entry refers only to earlier
/// entries, and each class has at most one descriptor.
pub open spec fn table_well_formed(t: Seq<ValueModel>) -> bool {
    &&& t.len() > 0
    &&& t[0] == ValueModel::String(null_name())
    &&& forall|i: int| 0 <= i < t.len() ==> refs_below(#[trigger] t[i], i as nat)
    &&& classes_unique(t)
    &&& forall|i: int| 0 <= i < t.len() ==> deep_keys_distinct(#[trigger] t[i])
}

/// The archive's object table starts with the sentinel and every reference
/// in the archive names a position inside that table.
pub open spec fn references_valid(a: ValueModel) -> bool {
    match a {
        ValueModel::Dictionary(d) => match lookup(d, "$objects"@) {
            Some(ValueModel::Array(t)) => t.len() > 0 && t[0] == ValueModel::String(null_name())
                && refs_below(a, t.len()),
            _ => false,
        },
        _ => false,
    }
}

/// The object table of an archive.
pub open spec fn objects_of(a: ValueModel) -> Seq<ValueModel> {
    match a {
        ValueModel::Dictionary(d) => match lookup(d, "$objects"@) {
            Some(ValueModel::Array(t)) => t,
            _ => Seq::empty(),
        },
        _ => Seq::empty(),
    }
}

/// Every archive that the encoder produces has a table that starts with the
/// sentinel string, and every reference in it, the root's included, names a
/// position inside that table.
pub proof fn lemma_encode_references_valid(v: ValueModel)
    ensures
        archive_of(v) matches Ok(a) ==> references_valid(a),
{
    lemma_initial_well_formed();
    lemma_encoded_well_formed(v, initial_table());
    if let Ok((t, root)) = encoded(v, initial_table()) {
        lemma_archive_objects(root, t);
        let a = archive(root, t);
        let ad = a->Dictionary_0;
        assert forall|i: int| 0 <= i < t.len() implies refs_below(#[trigger] t[i], t.len()) by {
            lemma_refs_below_grows(t[i], i as nat, t.len());
        }
        assert forall|i: int| 0 <= i < ad.len() implies refs_below(#[trigger] ad[i].1, t.len()) by {
            if i == 2 {
                let top = ad[2].1->Dictionary_0;
                assert forall|j: int| 0 <= j < top.len() implies refs_below(#[trigger] top[j].1, t.len()) by {}
            }
        }
    }
}

/// In every table that the encoder produces, no class has two descriptors:
/// all dictionaries share one descriptor, and all arrays share one.
pub proof fn lemma_encode_classes_unique(v: ValueModel)
    ensures
        archive_of(v) matches Ok(a) ==> classes_unique(objects_of(a)),
{
    lemma_initial_well_formed();
    lemma_encoded_well_formed(v, initial_table());
    if let Ok((t, root)) = encoded(v, initial_table()) {
        lemma_archive_objects(root, t);
    }
}

proof fn lemma_initial_well_formed()
    ensures
        table_well_formed(initial_table()),
{
    let t = initial_table();
    assert forall|i: int| 0 <= i < t.len() implies refs_below(#[trigger] t[i], i as nat) by {}
}

proof fn lemma_archive_objects(root: nat, t: Seq<ValueModel>)
    ensures
        lookup(archive(root, t)->Dictionary_0, "$objects"@) == Some(ValueModel::Array(t)),
        objects_of(archive(root, t)) == t,
{
    reveal_strlit("$objects");
    reveal_strlit("$archiver");
    reveal_strlit("$version");
    reveal_strlit("$top");
    reveal_with_fuel(find_key, 5);
    let d = archive(root, t)->Dictionary_0;
    assert(d[0].0[1] != "$objects"@[1]);
    assert(d[1].0[1] != "$objects"@[1]);
    assert(d[2].0[1] != "$objects"@[1]);
}

/// A dictionary occurs somewhere in `v`.
pub open spec fn has_dictionary(v: ValueModel) -> bool
    decreases v,
{
    match v {
        ValueModel::Dictionary(_) => true,
        ValueModel::Array(s) => exists|i: int| 0 <= i < s.len() && has_dictionary(#[trigger] s[i]),
        _ => false,
    }
}

/// An array occurs somewhere in `v`.
pub open spec fn has_array(v: ValueModel) -> bool
    decreases v,
{
    match v {
        ValueModel::Array(_) => true,
        ValueModel::Dictionary(d) => exists|i: int| 0 <= i < d.len() && has_array(#[trigger] d[i].1),
        _ => false,
    }
}

/// Some entry of `t` describes the class `name`.
pub open spec fn has_descriptor(t: Seq<ValueModel>, name: Seq<char>) -> bool {
    exists|i: int| 0 <= i < t.len() && describes_class(#[trigger] t[i], name)
}

/// Exactly one entry of `t` describes the class `name`.
pub open spec fn one_descriptor(t: Seq<ValueModel>, name: Seq<char>) -> bool {
    &&& has_descriptor(t, name)
    &&& forall|i: int, j: int|
        0 <= i < t.len() && 0 <= j < t.len() && describes_class(#[trigger] t[i], name)
            && describes_class(#[trigger] t[j], name) ==> i == j
}

/// `x` is a dictionary with a `$classes` entry.
pub open spec fn has_classes_key(x: ValueModel) -> bool {
    x is Dictionary && lookup(x->Dictionary_0, "$classes"@) is Some
}

/// Each entry of `t` from position `from` on that has a `$classes` entry is
/// the descriptor of a dictionary (and `dict` holds) or of an array (and
/// `arr` holds).
pub open spec fn descriptors_from(t: Seq<ValueModel>, from: int, dict: bool, arr: bool) -> bool {
    forall|i: int|
        from <= i < t.len() && has_classes_key(#[trigger] t[i]) ==> (t[i] == class_record(
            dictionary_class(),
        ) && dict) || (t[i] == class_record(array_class()) && arr)
}

/// In every table that the encoder produces, the only entries with a
/// `$classes` entry are the descriptors of the dictionary and array classes;
/// there is exactly one dictionary descriptor when the input holds a
/// dictionary at any depth and none otherwise, and likewise for arrays.
pub proof fn lemma_encode_descriptors_exact(v: ValueModel)
    ensures
        archive_of(v) matches Ok(a) ==> {
            &&& descriptors_from(objects_of(a), 0, true, true)
            &&& has_dictionary(v) ==> one_descriptor(objects_of(a), dictionary_class())
            &&& !has_dictionary(v) ==> !has_descriptor(objects_of(a), dictionary_class())
            &&& has_array(v) ==> one_descriptor(objects_of(a), array_class())
            &&& !has_array(v) ==> !has_descriptor(objects_of(a), array_class())
        },
{
    lemma_encode_one_descriptor_per_class(v);
    lemma_encoded_descriptor_origin(v, initial_table());
    lemma_descriptor_names_differ();
    if let Ok((t, root)) = encoded(v, initial_table()) {
        lemma_archive_objects(root, t);
        lemma_encoded_descriptors(v, initial_table());
        assert(t[0] == initial_table()[0]);
        assert(!has_classes_key(t[0]));
        assert forall|i: int| 0 <= i < t.len() && describes_class(#[trigger] t[i], dictionary_class())
            implies has_dictionary(v) by {
            assert(has_classes_key(t[i]));
        }
        assert forall|i: int| 0 <= i < t.len() && describes_class(#[trigger] t[i], array_class())
            implies has_array(v) by {
            assert(has_classes_key(t[i]));
        }
    }
}

proof fn lemma_descriptor_names_differ()
    ensures
        !describes_class(class_record(array_class()), dictionary_class()),
        !describes_class(class_record(dictionary_class()), array_class()),
        forall|name: Seq<char>| #[trigger] describes_class(class_record(name), name),
        forall|name: Seq<char>| #[trigger] has_classes_key(class_record(name)),
{
    reveal_strlit("NSArray");
    reveal_strlit("NSDictionary");
    reveal_with_fuel(find_key, 3);
    assert("NSArray"@.len() != "NSDictionary"@.len());
}

/// The entries that encoding `v` appends with a `$classes` entry are the
/// descriptors of the container kinds that `v` holds.
proof fn lemma_encoded_descriptor_origin(v: ValueModel, t: Seq<ValueModel>)
    ensures
        encoded(v, t) matches Ok((t2, u)) ==> descriptors_from(t2, t.len() as int, has_dictionary(v), has_array(v)),
    decreases v,
{
    lemma_encoded_descriptors(v, t);
    lemma_descriptor_names_differ();
    match v {
        ValueModel::Array(items) => {
            lemma_items_descriptor_origin(items, t);
            if let Ok((t1, us)) = encoded_items(items, t) {
                let (t2, c) = class_ref(t1, array_class());
                lemma_records_describe_no_class(c, us, us, array_class());
                if exists|j: int| 0 <= j < items.len() && has_dictionary(#[trigger] items[j]) {
                    assert(has_dictionary(v));
                }
            }
        },
        ValueModel::Dictionary(d) => {
            lemma_entries_descriptor_origin(d, t);
            if let Ok((t1, ks, vs)) = encoded_entries(d, t) {
                let (t2, c) = class_ref(t1, dictionary_class());
                lemma_records_describe_no_class(c, ks, vs, dictionary_class());
                if exists|j: int| 0 <= j < d.len() && has_array(#[trigger] d[j].1) {
                    assert(has_array(v));
                }
            }
        },
        _ => {},
    }
}

proof fn lemma_items_descriptor_origin(items: Seq<ValueModel>, t: Seq<ValueModel>)
    ensures
        encoded_items(items, t) matches Ok((t2, us)) ==> descriptors_from(
            t2,
            t.len() as int,
            exists|j: int| 0 <= j < items.len() && has_dictionary(#[trigger] items[j]),
            exists|j: int| 0 <= j < items.len() && has_array(#[trigger] items[j]),
        ),
    decreases items,
{
    if items.len() > 0 {
        let n = items.len() - 1;
        let p = items.subrange(0, n);
        lemma_items_descriptor_origin(p, t);
        lemma_items_descriptors(p, t);
        if let Ok((t1, us)) = encoded_items(p, t) {
            lemma_encoded_descriptor_origin(items[n], t1);
            lemma_encoded_descriptors(items[n], t1);
            assert(forall|j: int| 0 <= j < n ==> p[j] == items[j]);
        }
    }
}

proof fn lemma_entries_descriptor_origin(d: Entries, t: Seq<ValueModel>)
    ensures
        encoded_entries(d, t) matches Ok((t3, ks, vs)) ==> descriptors_from(
            t3,
            t.len() as int,
            exists|j: int| 0 <= j < d.len() && has_dictionary(#[trigger] d[j].1),
            exists|j: int| 0 <= j < d.len() && has_array(#[trigger] d[j].1),
        ),
    decreases d,
{
    if d.len() > 0 {
        let n = d.len() - 1;
        let p = d.subrange(0, n);
        lemma_entries_descriptor_origin(p, t);
        lemma_entries_descriptors(p, t);
        if let Ok((t1, ks, vs)) = encoded_entries(p, t) {
            let (t2, k) = encoded_string(d[n].0, t1);
            lemma_encoded_descriptor_origin(d[n].1, t2);
            lemma_encoded_descriptors(d[n].1, t2);
            assert(forall|j: int| 0 <= j < n ==> p[j] == d[j]);
        }
    }
}

/// `t` is the start of `t2`.
pub open spec fn is_prefix(t: Seq<ValueModel>, t2: Seq<ValueModel>) -> bool {
    t.len() <= t2.len() && forall|i: int| 0 <= i < t.len() ==> #[trigger] t2[i] == t[i]
}

/// However many dictionaries and arrays an input holds, the table of its
/// archive has exactly one dictionary descriptor when it holds any
/// dictionary, and exactly one array descriptor when it holds any array.
pub proof fn lemma_encode_one_descriptor_per_class(v: ValueModel)
    ensures
        archive_of(v) matches Ok(a) ==> (has_dictionary(v) ==> one_descriptor(
            objects_of(a),
            dictionary_class(),
        )) && (has_array(v) ==> one_descriptor(objects_of(a), array_class())),
{
    lemma_initial_well_formed();
    lemma_encoded_well_formed(v, initial_table());
    lemma_encoded_descriptors(v, initial_table());
    if let Ok((t, root)) = encoded(v, initial_table()) {
        lemma_archive_objects(root, t);
        lemma_unique_descriptor(t, dictionary_class());
        lemma_unique_descriptor(t, array_class());
    }
}

proof fn lemma_unique_descriptor(t: Seq<ValueModel>, name: Seq<char>)
    requires
        classes_unique(t),
    ensures
        forall|i: int, j: int|
            0 <= i < t.len() && 0 <= j < t.len() && describes_class(#[trigger] t[i], name)
                && describes_class(#[trigger] t[j], name) ==> i == j,
{
    assert forall|i: int, j: int|
        0 <= i < t.len() && 0 <= j < t.len() && describes_class(#[trigger] t[i], name)
            && describes_class(#[trigger] t[j], name) implies i == j by {
        if i < j {
            assert(!describes_class(t[j], name));
        } else if j < i {
            assert(!describes_class(t[i], name));
        }
    }
}

proof fn lemma_prefix_keeps_descriptor(t: Seq<ValueModel>, t2: Seq<ValueModel>, name: Seq<char>)
    requires
        is_prefix(t, t2),
        has_descriptor(t, name),
    ensures
        has_descriptor(t2, name),
{
    let i = choose|i: int| 0 <= i < t.len() && describes_class(#[trigger] t[i], name);
    assert(t2[i] == t[i]);
}

proof fn lemma_class_ref_descriptor(t: Seq<ValueModel>, name: Seq<char>)
    ensures
        is_prefix(t, class_ref(t, name).0),
        has_descriptor(class_ref(t, name).0, name),
{
    lemma_class_index(t, name);
    match class_index(t, name) {
        Some(i) => {
            assert(describes_class(t[i], name));
        },
        None => {
            let t2 = t.push(class_record(name));
            reveal_with_fuel(find_key, 3);
            assert(describes_class(t2[t.len() as int], name));
        },
    }
}

/// Encoding only appends, and leaves a descriptor for each kind of
/// container that the value holds.
proof fn lemma_encoded_descriptors(v: ValueModel, t: Seq<ValueModel>)
    ensures
        encoded(v, t) matches Ok((t2, u)) ==> is_prefix(t, t2) && (has_dictionary(v) ==> has_descriptor(
            t2,
            dictionary_class(),
        )) && (has_array(v) ==> has_descriptor(t2, array_class())),
    decreases v,
{
    match v {
        ValueModel::Array(items) => {
            lemma_items_descriptors(items, t);
            if let Ok((t1, us)) = encoded_items(items, t) {
                lemma_class_ref_descriptor(t1, array_class());
                let (t2, c) = class_ref(t1, array_class());
                let t3 = t2.push(array_record(c, us));
                if has_dictionary(v) {
                    lemma_prefix_keeps_descriptor(t1, t2, dictionary_class());
                    lemma_prefix_keeps_descriptor(t2, t3, dictionary_class());
                }
                lemma_prefix_keeps_descriptor(t2, t3, array_class());
            }
        },
        ValueModel::Dictionary(d) => {
            lemma_entries_descriptors(d, t);
            if let Ok((t1, ks, vs)) = encoded_entries(d, t) {
                lemma_class_ref_descriptor(t1, dictionary_class());
                let (t2, c) = class_ref(t1, dictionary_class());
                let t3 = t2.push(dictionary_record(c, ks, vs));
                if has_array(v) {
                    lemma_prefix_keeps_descriptor(t1, t2, array_class());
                    lemma_prefix_keeps_descriptor(t2, t3, array_class());
                }
                lemma_prefix_keeps_descriptor(t2, t3, dictionary_class());
            }
        },
        _ => {},
    }
}

proof fn lemma_items_descriptors(items: Seq<ValueModel>, t: Seq<ValueModel>)
    ensures
        encoded_items(items, t) matches Ok((t2, us)) ==> is_prefix(t, t2) && ((exists|j: int|
            0 <= j < items.len() && has_dictionary(#[trigger] items[j])) ==> has_descriptor(
            t2,
            dictionary_class(),
        )) && ((exists|j: int| 0 <= j < items.len() && has_array(#[trigger] items[j]))
            ==> has_descriptor(t2, array_class())),
    decreases items,
{
    if items.len() > 0 {
        let n = items.len() - 1;
        let p = items.subrange(0, n);
        lemma_items_descriptors(p, t);
        if let Ok((t1, us)) = encoded_items(p, t) {
            lemma_encoded_descriptors(items[n], t1);
            if let Ok((t2, u)) = encoded(items[n], t1) {
                if exists|j: int| 0 <= j < items.len() && has_dictionary(#[trigger] items[j]) {
                    let j = choose|j: int| 0 <= j < items.len() && has_dictionary(#[trigger] items[j]);
                    if j < n {
                        assert(has_dictionary(p[j]));
                        lemma_prefix_keeps_descriptor(t1, t2, dictionary_class());
                    }
                }
                if exists|j: int| 0 <= j < items.len() && has_array(#[trigger] items[j]) {
                    let j = choose|j: int| 0 <= j < items.len() && has_array(#[trigger] items[j]);
                    if j < n {
                        assert(has_array(p[j]));
                        lemma_prefix_keeps_descriptor(t1, t2, array_class());
                    }
                }
            }
        }
    }
}

proof fn lemma_entries_descriptors(d: Entries, t: Seq<ValueModel>)
    ensures
        encoded_entries(d, t) matches Ok((t3, ks, vs)) ==> is_prefix(t, t3) && ((exists|j: int|
            0 <= j < d.len() && has_dictionary(#[trigger] d[j].1)) ==> has_descriptor(
            t3,
            dictionary_class(),
        )) && ((exists|j: int| 0 <= j < d.len() && has_array(#[trigger] d[j].1)) ==> has_descriptor(
            t3,
            array_class(),
        )),
    decreases d,
{
    if d.len() > 0 {
        let n = d.len() - 1;
        let p = d.subrange(0, n);
        lemma_entries_descriptors(p, t);
        if let Ok((t1, ks, vs)) = encoded_entries(p, t) {
            let (t2, k) = encoded_string(d[n].0, t1);
            lemma_encoded_descriptors(d[n].1, t2);
            if let Ok((t3, u)) = encoded(d[n].1, t2) {
                assert(is_prefix(t1, t3));
                if exists|j: int| 0 <= j < d.len() && has_dictionary(#[trigger] d[j].1) {
                    let j = choose|j: int| 0 <= j < d.len() && has_dictionary(#[trigger] d[j].1);
                    if j < n {
                        assert(has_dictionary(p[j].1));
                        lemma_prefix_keeps_descriptor(t1, t3, dictionary_class());
                    }
                }
                if exists|j: int| 0 <= j < d.len() && has_array(#[trigger] d[j].1) {
                    let j = choose|j: int| 0 <= j < d.len() && has_array(#[trigger] d[j].1);
                    if j < n {
                        assert(has_array(p[j].1));
                        lemma_prefix_keeps_descriptor(t1, t3, array_class());
                    }
                }
            }
        }
    }
}

pub proof fn lemma_refs_below_grows(v: ValueModel, n: nat, m: nat)
    requires
        refs_below(v, n),
        n <= m,
    ensures
        refs_below(v, m),
    decreases v,
{
    match v {
        ValueModel::Array(s) => {
            assert forall|i: int| 0 <= i < s.len() implies refs_below(#[trigger] s[i], m) by {
                lemma_refs_below_grows(s[i], n, m);
            }
        },
        ValueModel::Dictionary(d) => {
            assert forall|i: int| 0 <= i < d.len() implies refs_below(#[trigger] d[i].1, m) by {
                lemma_refs_below_grows(d[i].1, n, m);
            }
        },
        _ => {},
    }
}

proof fn lemma_uid_seq_below(us: Seq<nat>, n: nat)
    requires
        forall|j: int| 0 <= j < us.len() ==> us[j] < n,
    ensures
        refs_below(ValueModel::Array(uid_seq(us)), n),
{
    assert forall|i: int| 0 <= i < uid_seq(us).len() implies refs_below(#[trigger] uid_seq(us)[i], n) by {}
}

/// Container records are no class descriptors.
proof fn lemma_records_describe_no_class(c: nat, ks: Seq<nat>, vs: Seq<nat>, name: Seq<char>)
    ensures
        !describes_class(array_record(c, vs), name),
        !describes_class(dictionary_record(c, ks, vs), name),
        !has_classes_key(array_record(c, vs)),
        !has_classes_key(dictionary_record(c, ks, vs)),
{
    reveal_strlit("$classes");
    reveal_strlit("$class");
    reveal_strlit("NS.keys");
    reveal_strlit("NS.objects");
    let a = array_record(c, vs)->Dictionary_0;
    let d = dictionary_record(c, ks, vs)->Dictionary_0;
    assert(a[0].0.len() != "$classes"@.len());
    assert(a[1].0[0] != "$classes"@[0]);
    assert(d[1].0[0] != "$classes"@[0]);
    assert(a.drop_last().drop_last() =~= Seq::<(Seq<char>, ValueModel)>::empty());
    assert(d.drop_last().drop_last().drop_last() =~= Seq::<(Seq<char>, ValueModel)>::empty());
    reveal_with_fuel(find_key, 4);
}

/// The archive's entries, container records and class descriptors hold each
/// key once.
proof fn lemma_record_keys_distinct(c: nat, ks: Seq<nat>, vs: Seq<nat>, name: Seq<char>)
    ensures
        deep_keys_distinct(array_record(c, vs)),
        deep_keys_distinct(dictionary_record(c, ks, vs)),
        deep_keys_distinct(class_record(name)),
{
    reveal_strlit("$classes");
    reveal_strlit("$classname");
    reveal_strlit("$class");
    reveal_strlit("NS.keys");
    reveal_strlit("NS.objects");
    let a = array_record(c, vs)->Dictionary_0;
    let d = dictionary_record(c, ks, vs)->Dictionary_0;
    let r = class_record(name)->Dictionary_0;
    assert(a[0].0.len() != a[1].0.len());
    assert(d[0].0.len() != d[1].0.len() && d[0].0.len() != d[2].0.len() && d[1].0.len() != d[2].0.len());
    assert(r[0].0.len() != r[1].0.len());
    let ka = a[1].1->Array_0;
    assert forall|i: int| 0 <= i < ka.len() implies deep_keys_distinct(#[trigger] ka[i]) by {}
    let kd = d[1].1->Array_0;
    assert forall|i: int| 0 <= i < kd.len() implies deep_keys_distinct(#[trigger] kd[i]) by {}
    let kc = r[0].1->Array_0;
    assert forall|i: int| 0 <= i < kc.len() implies deep_keys_distinct(#[trigger] kc[i]) by {}
    assert forall|i: int| 0 <= i < a.len() implies deep_keys_distinct(#[trigger] a[i].1) by {}
    assert forall|i: int| 0 <= i < d.len() implies deep_keys_distinct(#[trigger] d[i].1) by {}
    assert forall|i: int| 0 <= i < r.len() implies deep_keys_distinct(#[trigger] r[i].1) by {}
}

/// Every archive that the encoder produces holds each key once in each of
/// its dictionaries, at every depth, whatever the input.
pub proof fn lemma_encode_keys_distinct(v: ValueModel)
    ensures
        archive_of(v) matches Ok(a) ==> deep_keys_distinct(a),
{
    lemma_initial_well_formed();
    lemma_encoded_well_formed(v, initial_table());
    if let Ok((t, root)) = encoded(v, initial_table()) {
        reveal_strlit("$objects");
        reveal_strlit("$archiver");
        reveal_strlit("$version");
        reveal_strlit("$top");
        let a = archive(root, t)->Dictionary_0;
        assert(a[0].0[1] != a[1].0[1] && a[0].0[1] != a[2].0[1] && a[0].0[1] != a[3].0[1]);
        assert(a[1].0[1] != a[2].0[1] && a[1].0[1] != a[3].0[1] && a[2].0[1] != a[3].0[1]);
        let top = a[2].1->Dictionary_0;
        assert forall|i: int| 0 <= i < top.len() implies deep_keys_distinct(#[trigger] top[i].1) by {}
        assert(deep_keys_distinct(a[3].1));
        assert forall|i: int| 0 <= i < a.len() implies deep_keys_distinct(#[trigger] a[i].1) by {}
    }
}

/// Appending an entry that refers only to earlier entries and describes no
/// class that the table already describes keeps the table well formed.
proof fn lemma_push_well_formed(t: Seq<ValueModel>, x: ValueModel)
    requires
        table_well_formed(t),
        refs_below(x, t.len()),
        deep_keys_distinct(x),
        forall|i: int, name: Seq<char>|
            0 <= i < t.len() && #[trigger] describes_class(t[i], name) ==> !describes_class(x, name),
    ensures
        table_well_formed(t.push(x)),
{
    let t2 = t.push(x);
    assert forall|i: int| 0 <= i < t2.len() implies deep_keys_distinct(#[trigger] t2[i]) by {
        if i < t.len() {
            assert(t2[i] == t[i]);
        }
    }
    assert forall|i: int| 0 <= i < t2.len() implies refs_below(#[trigger] t2[i], i as nat) by {
        if i < t.len() {
            assert(t2[i] == t[i]);
        }
    }
    assert forall|i: int, j: int, name: Seq<char>|
        0 <= i < j < t2.len() && #[trigger] describes_class(t2[i], name) implies !#[trigger] describes_class(
            t2[j],
            name,
        ) by {
        assert(t2[i] == t[i]);
        if j < t.len() {
            assert(t2[j] == t[j]);
        }
    }
}

proof fn lemma_class_ref_well_formed(t: Seq<ValueModel>, name: Seq<char>)
    requires
        table_well_formed(t),
    ensures
        table_well_formed(class_ref(t, name).0),
        class_ref(t, name).1 < class_ref(t, name).0.len(),
        t.len() <= class_ref(t, name).0.len(),
{
    lemma_class_index(t, name);
    if class_index(t, name) is None {
        let r = class_record(name);
        let rd = r->Dictionary_0;
        assert forall|i: int| 0 <= i < rd.len() implies refs_below(#[trigger] rd[i].1, t.len()) by {
            if i == 0 {
                let cs = rd[0].1->Array_0;
                assert forall|j: int| 0 <= j < cs.len() implies refs_below(#[trigger] cs[j], t.len()) by {}
            }
        }
        assert forall|i: int, m: Seq<char>|
            0 <= i < t.len() && #[trigger] describes_class(t[i], m) implies !describes_class(r, m) by {
            if describes_class(r, m) {
                reveal_with_fuel(find_key, 3);
                assert(m == name);
            }
        }
        lemma_record_keys_distinct(0, Seq::empty(), Seq::empty(), name);
        lemma_push_well_formed(t, r);
    }
}

proof fn lemma_scalar_well_formed(t: Seq<ValueModel>, x: ValueModel)
    requires
        table_well_formed(t),
        !(x is Uid),
        !(x is Array),
        !(x is Dictionary),
    ensures
        table_well_formed(t.push(x)),
{
    lemma_push_well_formed(t, x);
}

proof fn lemma_encoded_string_well_formed(s: Seq<char>, t: Seq<ValueModel>)
    requires
        table_well_formed(t),
    ensures
        table_well_formed(encoded_string(s, t).0),
        encoded_string(s, t).1 < encoded_string(s, t).0.len(),
        t.len() <= encoded_string(s, t).0.len(),
{
    if s != null_name() {
        lemma_scalar_well_formed(t, ValueModel::String(s));
    }
}

/// Encoding keeps the table well formed, yields a position inside it, and
/// only appends.
pub proof fn lemma_encoded_well_formed(v: ValueModel, t: Seq<ValueModel>)
    requires
        table_well_formed(t),
    ensures
        encoded(v, t) matches Ok((t2, u)) ==> table_well_formed(t2) && u < t2.len() && t.len()
            <= t2.len(),
    decreases v,
{
    match v {
        ValueModel::Uid(_) => {},
        ValueModel::Null => {},
        ValueModel::String(s) => lemma_encoded_string_well_formed(s, t),
        ValueModel::Array(items) => {
            lemma_items_well_formed(items, t);
            if let Ok((t1, us)) = encoded_items(items, t) {
                lemma_class_ref_well_formed(t1, array_class());
                let (t2, c) = class_ref(t1, array_class());
                let r = array_record(c, us);
                assert forall|j: int| 0 <= j < us.len() implies us[j] < t2.len() by {}
                lemma_uid_seq_below(us, t2.len());
                let rd = r->Dictionary_0;
                assert forall|i: int| 0 <= i < rd.len() implies refs_below(#[trigger] rd[i].1, t2.len()) by {}
                assert forall|i: int, m: Seq<char>|
                    0 <= i < t2.len() && #[trigger] describes_class(t2[i], m) implies !describes_class(r, m) by {
                    lemma_records_describe_no_class(c, us, us, m);
                }
                lemma_record_keys_distinct(c, us, us, array_class());
                lemma_push_well_formed(t2, r);
            }
        },
        ValueModel::Dictionary(d) => {
            lemma_entries_well_formed(d, t);
            if let Ok((t1, ks, vs)) = encoded_entries(d, t) {
                lemma_class_ref_well_formed(t1, dictionary_class());
                let (t2, c) = class_ref(t1, dictionary_class());
                let r = dictionary_record(c, ks, vs);
                lemma_uid_seq_below(ks, t2.len());
                lemma_uid_seq_below(vs, t2.len());
                let rd = r->Dictionary_0;
                assert forall|i: int| 0 <= i < rd.len() implies refs_below(#[trigger] rd[i].1, t2.len()) by {}
                assert forall|i: int, m: Seq<char>|
                    0 <= i < t2.len() && #[trigger] describes_class(t2[i], m) implies !describes_class(r, m) by {
                    lemma_records_describe_no_class(c, ks, vs, m);
                }
                lemma_record_keys_distinct(c, ks, vs, dictionary_class());
                lemma_push_well_formed(t2, r);
            }
        },
        _ => lemma_scalar_well_formed(t, v),
    }
}

proof fn lemma_items_well_formed(items: Seq<ValueModel>, t: Seq<ValueModel>)
    requires
        table_well_formed(t),
    ensures
        encoded_items(items, t) matches Ok((t2, us)) ==> table_well_formed(t2) && t.len() <= t2.len()
            && forall|j: int| 0 <= j < us.len() ==> us[j] < t2.len(),
    decreases items,
{
    if items.len() > 0 {
        let p = items.subrange(0, items.len() - 1);
        lemma_items_well_formed(p, t);
        if let Ok((t1, us)) = encoded_items(p, t) {
            lemma_encoded_well_formed(items[items.len() - 1], t1);
        }
    }
}

proof fn lemma_entries_well_formed(d: Entries, t: Seq<ValueModel>)
    requires
        table_well_formed(t),
    ensures
        encoded_entries(d, t) matches Ok((t2, ks, vs)) ==> table_well_formed(t2) && t.len() <= t2.len()
            && (forall|j: int| 0 <= j < ks.len() ==> ks[j] < t2.len())
            && forall|j: int| 0 <= j < vs.len() ==> vs[j] < t2.len(),
    decreases d,
{
    if d.len() > 0 {
        let p = d.subrange(0, d.len() - 1);
        lemma_entries_well_formed(p, t);
        if let Ok((t1, ks, vs)) = encoded_entries(p, t) {
            lemma_encoded_string_well_formed(d[d.len() - 1].0, t1);
            let (t2, k) = encoded_string(d[d.len() - 1].0, t1);
            lemma_encoded_well_formed(d[d.len() - 1].1, t2);
        }
    }
}

} // verus!

//! The recursive, tagged value tree a parse produces, and the ordered
//! key-unique mapping its objects hold. The mapping is carried by
//! `indexmap::IndexMap`, kept behind trusted wrappers whose contracts speak
//! over the entry sequence `obj_entries`.

use vstd::prelude::*;

use crate::number::{Number, SpecNumber};

verus! {

/// The mathematical model of a JSON value: objects are entry sequences in
/// insertion order.
pub enum SpecValue {
    Null,
    Bool(bool),
    Str(Seq<char>),
    Num(SpecNumber),
    Array(Seq<SpecValue>),
    Object(Seq<(Seq<char>, SpecValue)>),
}

/// A parsed JSON value. Every nested element is owned solely by its parent.
#[derive(Debug, PartialEq)]
pub enum JValue {
    Null,
    Bool(bool),
    String(String),
    Number(Number),
    Array(Vec<JValue>),
    Object(ObjectMap),
}

/// An ordered mapping from string keys to values: insertion order is kept,
/// keys are unique, and writing an existing key updates its value in place.
/// The map is carried by `indexmap::IndexMap`; what is known of it is stated
/// over `obj_entries` by the trusted wrappers below.
#[verifier::external_body]
#[derive(Debug)]
pub struct ObjectMap {
    inner: indexmap::IndexMap<String, JValue>,
}

/// The entries of the mapping, keys as character sequences, in insertion
/// order.
pub uninterp spec fn obj_entries(m: ObjectMap) -> Seq<(Seq<char>, JValue)>;

/// Writing a key into an entry sequence: an existing key keeps its first
/// position and takes the new value; a fresh key is appended last.
pub open spec fn upsert_entries(
    es: Seq<(Seq<char>, JValue)>,
    k: Seq<char>,
    v: JValue,
) -> Seq<(Seq<char>, JValue)>
    decreases es.len(),
{
    if es.len() == 0 {
        seq![(k, v)]
    } else if es[0].0 == k {
        seq![(k, v)].add(es.drop_first())
    } else {
        seq![es[0]].add(upsert_entries(es.drop_first(), k, v))
    }
}

/// Relies on `indexmap::IndexMap::new`: a new map holds nothing.
#[verifier::external_body]
fn obj_map_new() -> (m: ObjectMap)
    ensures
        obj_entries(m) == Seq::<(Seq<char>, JValue)>::empty(),
{
    ObjectMap { inner: indexmap::IndexMap::new() }
}

/// Relies on `indexmap::IndexMap::insert`: a key equal to an existing one
/// keeps that key's place in the order and updates its value; a new key is
/// inserted last in order.
#[verifier::external_body]
fn obj_map_insert(m: &mut ObjectMap, k: String, v: JValue)
    ensures
        obj_entries(*final(m)) == upsert_entries(obj_entries(*old(m)), k@, v),
{
    m.inner.insert(k, v);
}

/// Relies on `indexmap::IndexMap::len`: the number of entries.
#[verifier::external_body]
fn obj_map_len(m: &ObjectMap) -> (n: usize)
    ensures
        n == obj_entries(*m).len(),
{
    m.inner.len()
}

/// Relies on `indexmap::IndexMap::get_index`, which hands out the pair at a
/// position exactly when the position is below the length, and on the
/// derived clones of `String` and `JValue` copying their values.
#[verifier::external_body]
fn obj_map_entry_at(m: &ObjectMap, i: usize) -> (r: Option<(String, JValue)>)
    ensures
        match r {
            Some(p) => i < obj_entries(*m).len() && p.0@ == obj_entries(*m)[i as int].0 && p.1
                == obj_entries(*m)[i as int].1,
            None => i >= obj_entries(*m).len(),
        },
{
    m.inner.get_index(i).map(|(k, v)| (k.clone(), v.clone()))
}

impl ObjectMap {
    /// An empty ordered mapping.
    pub fn new() -> (m: Self)
        ensures
            obj_entries(m) == Seq::<(Seq<char>, JValue)>::empty(),
    {
        obj_map_new()
    }

    /// Writes a key: an existing key keeps its place in the order and takes
    /// the new value; a fresh key is appended last.
    pub fn insert(&mut self, k: String, v: JValue)
        ensures
            obj_entries(*final(self)) == upsert_entries(obj_entries(*old(self)), k@, v),
    {
        obj_map_insert(self, k, v);
    }

    /// The number of keys.
    pub fn len(&self) -> (n: usize)
        ensures
            n == obj_entries(*self).len(),
    {
        obj_map_len(self)
    }

    /// The key-value pair at a position in the insertion order, present
    /// exactly for positions below the length.
    pub fn entry_at(&self, i: usize) -> (r: Option<(String, JValue)>)
        ensures
            match r {
                Some(p) => i < obj_entries(*self).len() && p.0@ == obj_entries(*self)[i as int].0
                    && p.1 == obj_entries(*self)[i as int].1,
                None => i >= obj_entries(*self).len(),
            },
    {
        obj_map_entry_at(self, i)
    }
}

impl Clone for JValue {
    /// Relies on the clones of `bool`, `String`, `Number`, `Vec` and
    /// `ObjectMap`: a deep copy of the tree.
    #[verifier::external_body]
    fn clone(&self) -> Self {
        match self {
            JValue::Null => JValue::Null,
            JValue::Bool(b) => JValue::Bool(*b),
            JValue::String(s) => JValue::String(s.clone()),
            JValue::Number(n) => JValue::Number(n.clone()),
            JValue::Array(a) => JValue::Array(a.clone()),
            JValue::Object(m) => JValue::Object(m.clone()),
        }
    }
}

impl Clone for ObjectMap {
    /// Relies on the derived clones of `indexmap::IndexMap`, `String` and
    /// `JValue`: the copy holds the same entries.
    #[verifier::external_body]
    fn clone(&self) -> (r: Self)
        ensures
            obj_entries(r) == obj_entries(*self),
    {
        ObjectMap { inner: self.inner.clone() }
    }
}

impl PartialEq for ObjectMap {
    /// Relies on `indexmap::IndexMap` equality: equal lengths and each key
    /// mapped to an equal value, order disregarded. Nothing verified
    /// compares maps; the comparison serves the tests.
    #[verifier::external_body]
    fn eq(&self, other: &Self) -> bool {
        self.inner == other.inner
    }
}

/// The executable value realises the mathematical value: same shape, every
/// leaf equal under its view, object entries corresponding pairwise.
pub open spec fn abstracts(v: JValue, sv: SpecValue) -> bool
    decreases sv,
{
    match (v, sv) {
        (JValue::Null, SpecValue::Null) => true,
        (JValue::Bool(b), SpecValue::Bool(sb)) => b == sb,
        (JValue::String(t), SpecValue::Str(st)) => t@ == st,
        (JValue::Number(n), SpecValue::Num(sn)) => n@ == sn,
        (JValue::Array(a), SpecValue::Array(sa)) => a@.len() == sa.len() && (forall|i: int|
            0 <= i < sa.len() ==> abstracts(a@[i], #[trigger] sa[i])),
        (JValue::Object(m), SpecValue::Object(se)) => entries_abstract(obj_entries(m), se),
        _ => false,
    }
}

/// Entry sequences correspond pairwise: equal keys in equal order, each
/// executable value realising its mathematical value.
pub open spec fn entries_abstract(
    es: Seq<(Seq<char>, JValue)>,
    se: Seq<(Seq<char>, SpecValue)>,
) -> bool
    decreases se,
{
    es.len() == se.len() && (forall|i: int|
        0 <= i < se.len() ==> es[i].0 == se[i].0 && abstracts(es[i].1, (#[trigger] se[i]).1))
}

/// Writing a key into a mathematical entry sequence: an existing key keeps
/// its first position and takes the new value; a fresh key is appended last.
pub open spec fn upsert_spec(
    se: Seq<(Seq<char>, SpecValue)>,
    k: Seq<char>,
    v: SpecValue,
) -> Seq<(Seq<char>, SpecValue)>
    decreases se.len(),
{
    if se.len() == 0 {
        seq![(k, v)]
    } else if se[0].0 == k {
        seq![(k, v)].add(se.drop_first())
    } else {
        seq![se[0]].add(upsert_spec(se.drop_first(), k, v))
    }
}

/// Writing corresponding pairs into corresponding entry sequences keeps them
/// corresponding.
pub proof fn lemma_upsert_abstract(
    es: Seq<(Seq<char>, JValue)>,
    se: Seq<(Seq<char>, SpecValue)>,
    k: Seq<char>,
    v: JValue,
    sv: SpecValue,
)
    requires
        entries_abstract(es, se),
        abstracts(v, sv),
    ensures
        entries_abstract(upsert_entries(es, k, v), upsert_spec(se, k, sv)),
    decreases se.len(),
{
    if se.len() == 0 {
    } else if es[0].0 == k {
        assert(se[0].0 == k);
        let re = seq![(k, v)].add(es.drop_first());
        let rs = seq![(k, sv)].add(se.drop_first());
        assert forall|i: int| 0 <= i < rs.len() implies re[i].0 == rs[i].0 && abstracts(
            re[i].1,
            (#[trigger] rs[i]).1,
        ) by {
            if i > 0 {
                assert(re[i] == es[i]);
                assert(rs[i] == se[i]);
            }
        }
    } else {
        assert(se[0].0 != k);
        let et = es.drop_first();
        let st = se.drop_first();
        assert(entries_abstract(et, st)) by {
            assert forall|i: int| 0 <= i < st.len() implies et[i].0 == st[i].0 && abstracts(
                et[i].1,
                (#[trigger] st[i]).1,
            ) by {
                assert(et[i] == es[i + 1]);
                assert(st[i] == se[i + 1]);
                assert(es[i + 1].0 == se[i + 1].0 && abstracts(es[i + 1].1, se[i + 1].1));
            }
        }
        lemma_upsert_abstract(et, st, k, v, sv);
        let re = seq![es[0]].add(upsert_entries(et, k, v));
        let rs = seq![se[0]].add(upsert_spec(st, k, sv));
        assert forall|i: int| 0 <= i < rs.len() implies re[i].0 == rs[i].0 && abstracts(
            re[i].1,
            (#[trigger] rs[i]).1,
        ) by {
            if i == 0 {
                assert(es[0].0 == se[0].0 && abstracts(es[0].1, se[0].1));
            } else {
                assert(re[i] == upsert_entries(et, k, v)[i - 1]);
                assert(rs[i] == upsert_spec(st, k, sv)[i - 1]);
            }
        }
    }
}


/// Pairwise distinct keys.
pub open spec fn unique_keys(se: Seq<(Seq<char>, SpecValue)>) -> bool {
    forall|i: int, j: int| 0 <= i < j < se.len() ==> (#[trigger] se[i]).0 != (#[trigger] se[j]).0
}

/// A well-formed tree: every object in it enumerates pairwise distinct keys.
pub open spec fn wf_value(sv: SpecValue) -> bool
    decreases sv,
{
    match sv {
        SpecValue::Array(sa) => forall|i: int| 0 <= i < sa.len() ==> wf_value(#[trigger] sa[i]),
        SpecValue::Object(se) => wf_entries(se),
        _ => true,
    }
}

/// Entries with pairwise distinct keys, each value well formed.
pub open spec fn wf_entries(se: Seq<(Seq<char>, SpecValue)>) -> bool
    decreases se,
{
    unique_keys(se) && (forall|i: int| 0 <= i < se.len() ==> wf_value((#[trigger] se[i]).1))
}

/// Writing any key into well-formed entries keeps them well formed: keys
/// stay pairwise distinct.
pub proof fn lemma_upsert_wf(se: Seq<(Seq<char>, SpecValue)>, k: Seq<char>, v: SpecValue)
    requires
        wf_entries(se),
        wf_value(v),
    ensures
        wf_entries(upsert_spec(se, k, v)),
{
    if entry_keys(se).contains(k) {
        lemma_upsert_dup_key(se, k, v);
        let ki = key_index(se, k);
        let r = se.update(ki, (k, v));
        assert(forall|i: int| 0 <= i < r.len() ==> (#[trigger] r[i]).0 == se[i].0);
        assert(forall|i: int| 0 <= i < r.len() ==> wf_value((#[trigger] r[i]).1)) by {
            assert(forall|i: int| 0 <= i < r.len() && i != ki ==> r[i] == se[i]);
        }
    } else {
        lemma_upsert_new_key(se, k, v);
        let r = se.push((k, v));
        assert forall|i: int| 0 <= i < se.len() implies (#[trigger] se[i]).0 != k by {
            assert(entry_keys(se)[i] == se[i].0);
            if se[i].0 == k {
                assert(entry_keys(se)[i] == k);
                assert(entry_keys(se).contains(k));
            }
        }
        assert(forall|i: int, j: int|
            0 <= i < j < r.len() ==> (#[trigger] r[i]).0 != (#[trigger] r[j]).0) by {
            assert(forall|i: int| 0 <= i < se.len() ==> r[i] == se[i]);
        }
        assert(forall|i: int| 0 <= i < r.len() ==> wf_value((#[trigger] r[i]).1)) by {
            assert(forall|i: int| 0 <= i < se.len() ==> r[i] == se[i]);
        }
    }
}

/// The keys of an entry sequence, in order.
pub open spec fn entry_keys(se: Seq<(Seq<char>, SpecValue)>) -> Seq<Seq<char>> {
    se.map_values(|p: (Seq<char>, SpecValue)| p.0)
}

/// Key order law: writing a fresh key appends its entry at the end and
/// leaves every earlier entry where it stands; hence an object literal with
/// distinct keys enumerates them in source order.
pub proof fn lemma_upsert_new_key(se: Seq<(Seq<char>, SpecValue)>, k: Seq<char>, v: SpecValue)
    requires
        !entry_keys(se).contains(k),
    ensures
        upsert_spec(se, k, v) == se.push((k, v)),
    decreases se.len(),
{
    if se.len() == 0 {
        assert(upsert_spec(se, k, v) =~= se.push((k, v)));
    } else {
        assert(entry_keys(se)[0] == se[0].0);
        assert(se[0].0 != k);
        let st = se.drop_first();
        assert(!entry_keys(st).contains(k)) by {
            assert forall|i: int| 0 <= i < st.len() implies (#[trigger] entry_keys(st)[i]) != k by {
                assert(entry_keys(st)[i] == st[i].0);
                assert(st[i] == se[i + 1]);
                assert(entry_keys(se)[i + 1] == se[i + 1].0);
            }
        }
        lemma_upsert_new_key(st, k, v);
        assert(seq![se[0]].add(st.push((k, v))) =~= se.push((k, v)));
    }
}

/// The first position of a key in an entry sequence.
pub open spec fn key_index(se: Seq<(Seq<char>, SpecValue)>, k: Seq<char>) -> int
    decreases se.len(),
{
    if se.len() == 0 {
        0
    } else if se[0].0 == k {
        0
    } else {
        1 + key_index(se.drop_first(), k)
    }
}

/// Duplicate key law: writing a key that is already there updates the value
/// at that key's first occurrence and leaves every key, and every other
/// entry, exactly where it stands.
pub proof fn lemma_upsert_dup_key(se: Seq<(Seq<char>, SpecValue)>, k: Seq<char>, v: SpecValue)
    requires
        entry_keys(se).contains(k),
    ensures
        0 <= key_index(se, k) < se.len(),
        se[key_index(se, k)].0 == k,
        forall|j: int| 0 <= j < key_index(se, k) ==> (#[trigger] se[j]).0 != k,
        upsert_spec(se, k, v) == se.update(key_index(se, k), (k, v)),
    decreases se.len(),
{
    assert(exists|i: int| 0 <= i < entry_keys(se).len() && entry_keys(se)[i] == k);
    let i = choose|i: int| 0 <= i < entry_keys(se).len() && entry_keys(se)[i] == k;
    assert(entry_keys(se)[i] == se[i].0);
    if se[0].0 == k {
        assert(upsert_spec(se, k, v) =~= se.update(0, (k, v)));
    } else {
        let st = se.drop_first();
        assert(entry_keys(st).contains(k)) by {
            assert(i >= 1);
            assert(entry_keys(st)[i - 1] == st[i - 1].0);
            assert(st[i - 1] == se[i]);
        }
        lemma_upsert_dup_key(st, k, v);
        let ki = key_index(se, k);
        assert(ki == 1 + key_index(st, k));
        assert(se[ki] == st[ki - 1]);
        assert forall|j: int| 0 <= j < ki implies (#[trigger] se[j]).0 != k by {
            if j > 0 {
                assert(se[j] == st[j - 1]);
            }
        }
        assert(seq![se[0]].add(st.update(ki - 1, (k, v))) =~= se.update(ki, (k, v)));
    }
}

} // verus!

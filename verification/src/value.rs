//! Values held by a record: opaque byte strings, integers, booleans, and
//! ordered maps from string keys to values.
//!
//! The mathematical model of a map is an association sequence of
//! `(key, value)` pairs in entry order; lookup, replacement and removal
//! act on the first occurrence of a key.

use vstd::prelude::*;

verus! {

/// Mathematical model of a [`Value`].  Map contents are association
/// sequences in entry order.
pub enum ValModel {
    Bytes(Seq<u8>),
    Integer(int),
    Boolean(bool),
    Object(Seq<(Seq<char>, ValModel)>),
}

/// Model of one map level: `(key, value)` pairs in entry order.
pub type MapModel = Seq<(Seq<char>, ValModel)>;

/// Value bound to the first occurrence of `k`, if any.
pub open spec fn map_find(m: MapModel, k: Seq<char>) -> Option<ValModel>
    decreases m.len(),
{
    if m.len() == 0 {
        None
    } else if m[0].0 == k {
        Some(m[0].1)
    } else {
        map_find(m.drop_first(), k)
    }
}

/// Bind `k` to `v`: replace the first occurrence in place, else append.
pub open spec fn map_set(m: MapModel, k: Seq<char>, v: ValModel) -> MapModel
    decreases m.len(),
{
    if m.len() == 0 {
        seq![(k, v)]
    } else if m[0].0 == k {
        seq![(k, v)] + m.drop_first()
    } else {
        seq![m[0]] + map_set(m.drop_first(), k, v)
    }
}

/// Drop the first occurrence of `k`, if any.
pub open spec fn map_unset(m: MapModel, k: Seq<char>) -> MapModel
    decreases m.len(),
{
    if m.len() == 0 {
        m
    } else if m[0].0 == k {
        m.drop_first()
    } else {
        seq![m[0]] + map_unset(m.drop_first(), k)
    }
}

/// No key occurs twice at this map level.
pub open spec fn keys_unique(m: MapModel) -> bool {
    forall|i: int, j: int| 0 <= i < j < m.len() ==> m[i].0 != m[j].0
}

/// Keys are unique at every level of a value.
pub open spec fn wf_val(v: ValModel) -> bool
    decreases v,
{
    match v {
        ValModel::Object(m) => wf_map(m),
        _ => true,
    }
}

/// Keys are unique at every level of a map.
pub open spec fn wf_map(m: MapModel) -> bool
    decreases m,
{
    keys_unique(m) && forall|i: int| 0 <= i < m.len() ==> wf_val(#[trigger] m[i].1)
}

/// The value found under any key of a well-formed map is well formed.
pub proof fn lemma_wf_find(m: MapModel, k: Seq<char>)
    requires
        wf_map(m),
    ensures
        match map_find(m, k) {
            Some(v) => wf_val(v),
            None => true,
        },
    decreases m.len(),
{
    if m.len() > 0 && m[0].0 != k {
        assert(wf_map(m.drop_first())) by {
            assert(forall|i: int|
                0 <= i < m.drop_first().len() ==> m.drop_first()[i] == m[i + 1]);
        }
        lemma_wf_find(m.drop_first(), k);
    }
}

/// A value stored in a record.  Only `Boolean` and `Map` are structurally
/// inspected by the engine; `Bytes` and `Integer` are opaque payload.
pub enum Value {
    Bytes(Vec<u8>),
    Integer(i64),
    Boolean(bool),
    Object(ObjectMap),
}

/// An ordered map from string keys to values; insertion order of fresh
/// keys is kept, replacement leaves a key in place.
pub struct ObjectMap {
    pub entries: Vec<(String, Value)>,
}

/// Model of an entry sequence: keys and values replaced by their models.
pub open spec fn entries_model(es: Seq<(String, Value)>) -> MapModel
    decreases es,
{
    if es.len() == 0 {
        Seq::empty()
    } else {
        seq![(es[0].0@, es[0].1.model())] + entries_model(es.drop_first())
    }
}

impl Value {
    pub open spec fn model(self) -> ValModel
        decreases self,
    {
        match self {
            Value::Bytes(b) => ValModel::Bytes(b@),
            Value::Integer(i) => ValModel::Integer(i as int),
            Value::Boolean(b) => ValModel::Boolean(b),
            Value::Object(m) => ValModel::Object(entries_model(m.entries@)),
        }
    }
}

impl View for Value {
    type V = ValModel;

    open spec fn view(&self) -> ValModel {
        self.model()
    }
}

impl View for ObjectMap {
    type V = MapModel;

    open spec fn view(&self) -> MapModel {
        entries_model(self.entries@)
    }
}

/// Length of and entries in the model of an entry sequence.
pub proof fn lemma_entries_model(es: Seq<(String, Value)>)
    ensures
        entries_model(es).len() == es.len(),
        forall|i: int|
            0 <= i < es.len() ==> entries_model(es)[i] == (es[i].0@, es[i].1.model()),
    decreases es.len(),
{
    if es.len() > 0 {
        lemma_entries_model(es.drop_first());
        assert forall|i: int|
            0 <= i < es.len() implies entries_model(es)[i] == (es[i].0@, es[i].1.model()) by {
            if i > 0 {
                assert(es.drop_first()[i - 1] == es[i]);
            }
        }
    }
}

/// `map_find` at a first occurrence index.
pub proof fn lemma_map_find_at(m: MapModel, j: int, k: Seq<char>)
    requires
        0 <= j < m.len(),
        m[j].0 == k,
        forall|i: int| 0 <= i < j ==> m[i].0 != k,
    ensures
        map_find(m, k) == Some(m[j].1),
    decreases j,
{
    if j > 0 {
        lemma_map_find_at(m.drop_first(), j - 1, k);
    }
}

/// `map_find` of an absent key.
pub proof fn lemma_map_find_absent(m: MapModel, k: Seq<char>)
    requires
        forall|i: int| 0 <= i < m.len() ==> m[i].0 != k,
    ensures
        map_find(m, k) is None,
    decreases m.len(),
{
    if m.len() > 0 {
        lemma_map_find_absent(m.drop_first(), k);
    }
}

/// `map_set` at a first occurrence index is an in-place update.
pub proof fn lemma_map_set_at(m: MapModel, j: int, k: Seq<char>, v: ValModel)
    requires
        0 <= j < m.len(),
        m[j].0 == k,
        forall|i: int| 0 <= i < j ==> m[i].0 != k,
    ensures
        map_set(m, k, v) == m.update(j, (k, v)),
    decreases j,
{
    if j == 0 {
        assert(map_set(m, k, v) =~= m.update(0, (k, v)));
    } else {
        lemma_map_set_at(m.drop_first(), j - 1, k, v);
        assert(map_set(m, k, v) =~= m.update(j, (k, v)));
    }
}

/// `map_set` of an absent key appends.
pub proof fn lemma_map_set_absent(m: MapModel, k: Seq<char>, v: ValModel)
    requires
        forall|i: int| 0 <= i < m.len() ==> m[i].0 != k,
    ensures
        map_set(m, k, v) == m.push((k, v)),
    decreases m.len(),
{
    if m.len() == 0 {
        assert(map_set(m, k, v) =~= m.push((k, v)));
    } else {
        lemma_map_set_absent(m.drop_first(), k, v);
        assert(map_set(m, k, v) =~= m.push((k, v)));
    }
}

/// `map_unset` at a first occurrence index removes that entry.
pub proof fn lemma_map_unset_at(m: MapModel, j: int, k: Seq<char>)
    requires
        0 <= j < m.len(),
        m[j].0 == k,
        forall|i: int| 0 <= i < j ==> m[i].0 != k,
    ensures
        map_unset(m, k) == m.remove(j),
    decreases j,
{
    if j == 0 {
        assert(map_unset(m, k) =~= m.remove(0));
    } else {
        lemma_map_unset_at(m.drop_first(), j - 1, k);
        assert(map_unset(m, k) =~= m.remove(j));
    }
}

/// `map_unset` of an absent key leaves the map unchanged.
pub proof fn lemma_map_unset_absent(m: MapModel, k: Seq<char>)
    requires
        forall|i: int| 0 <= i < m.len() ==> m[i].0 != k,
    ensures
        map_unset(m, k) == m,
    decreases m.len(),
{
    if m.len() > 0 {
        lemma_map_unset_absent(m.drop_first(), k);
        assert(map_unset(m, k) =~= m);
    }
}

/// Copy a byte vector element by element.
fn copy_bytes(b: &Vec<u8>) -> (r: Vec<u8>)
    ensures
        r@ == b@,
{
    let mut r: Vec<u8> = Vec::new();
    let n = b.len();
    let mut i: usize = 0;
    while i < n
        invariant
            i <= n,
            n == b@.len(),
            r@ == b@.subrange(0, i as int),
        decreases n - i,
    {
        r.push(b[i]);
        assert(r@ =~= b@.subrange(0, i + 1));
        i += 1;
    }
    assert(r@ =~= b@);
    r
}

impl Value {
    /// Deep copy with the same model.
    pub fn duplicate(&self) -> (r: Value)
        ensures
            r@ == self@,
        decreases self,
    {
        match self {
            Value::Bytes(b) => Value::Bytes(copy_bytes(b)),
            Value::Integer(i) => Value::Integer(*i),
            Value::Boolean(b) => Value::Boolean(*b),
            Value::Object(m) => Value::Object(m.duplicate()),
        }
    }
}

impl ObjectMap {
    /// The empty map.
    pub fn new() -> (r: ObjectMap)
        ensures
            r@ == Seq::<(Seq<char>, ValModel)>::empty(),
    {
        ObjectMap { entries: Vec::new() }
    }

    /// Number of entries.
    pub fn len(&self) -> (r: usize)
        ensures
            r == self@.len(),
    {
        proof {
            lemma_entries_model(self.entries@);
        }
        self.entries.len()
    }

    /// Whether the map has no entries.
    pub fn is_empty(&self) -> (r: bool)
        ensures
            r == (self@.len() == 0),
    {
        proof {
            lemma_entries_model(self.entries@);
        }
        self.entries.is_empty()
    }

    /// Index of the first entry whose key is `key`, if any.
    pub fn find_index(&self, key: &String) -> (r: Option<usize>)
        ensures
            match r {
                Some(j) => j < self.entries@.len() && self.entries@[j as int].0@ == key@
                    && forall|i: int| 0 <= i < j ==> self.entries@[i].0@ != key@,
                None => forall|i: int|
                    0 <= i < self.entries@.len() ==> self.entries@[i].0@ != key@,
            },
    {
        let n = self.entries.len();
        let mut idx: usize = 0;
        while idx < n
            invariant
                idx <= n,
                n == self.entries@.len(),
                forall|i: int| 0 <= i < idx ==> self.entries@[i].0@ != key@,
            decreases n - idx,
        {
            if self.entries[idx].0.eq(key) {
                return Some(idx);
            }
            idx += 1;
        }
        None
    }

    /// Look up the value bound to `key`.
    pub fn get(&self, key: &String) -> (r: Option<&Value>)
        ensures
            match r {
                Some(v) => map_find(self@, key@) == Some(v@),
                None => map_find(self@, key@) is None,
            },
    {
        proof {
            lemma_entries_model(self.entries@);
        }
        match self.find_index(key) {
            Some(j) => {
                proof {
                    lemma_map_find_at(self@, j as int, key@);
                }
                Some(&self.entries[j].1)
            },
            None => {
                proof {
                    lemma_map_find_absent(self@, key@);
                }
                None
            },
        }
    }

    /// Bind `key` to `value`: replace the first occurrence in place, else
    /// append at the end.
    pub fn insert(&mut self, key: String, value: Value)
        ensures
            final(self)@ == map_set(old(self)@, key@, value@),
    {
        proof {
            lemma_entries_model(self.entries@);
        }
        let ghost m0 = self@;
        match self.find_index(&key) {
            Some(j) => {
                proof {
                    lemma_map_set_at(m0, j as int, key@, value@);
                }
                let _ = self.entries.remove(j);
                self.entries.insert(j, (key, value));
                proof {
                    assert(self.entries@ =~= old(self).entries@.update(
                        j as int,
                        (key, value),
                    ));
                    lemma_entries_model(self.entries@);
                    assert(self@ =~= m0.update(j as int, (key@, value@)));
                }
            },
            None => {
                proof {
                    lemma_map_set_absent(m0, key@, value@);
                }
                self.entries.push((key, value));
                proof {
                    lemma_entries_model(self.entries@);
                    assert(self@ =~= m0.push((key@, value@)));
                }
            },
        }
    }

    /// Remove the first occurrence of `key`, if any.
    pub fn remove_key(&mut self, key: &String)
        ensures
            final(self)@ == map_unset(old(self)@, key@),
    {
        proof {
            lemma_entries_model(self.entries@);
        }
        let ghost m0 = self@;
        match self.find_index(key) {
            Some(j) => {
                proof {
                    lemma_map_unset_at(m0, j as int, key@);
                }
                let _ = self.entries.remove(j);
                proof {
                    lemma_entries_model(self.entries@);
                    assert(self@ =~= m0.remove(j as int));
                }
            },
            None => {
                proof {
                    lemma_map_unset_absent(m0, key@);
                }
            },
        }
    }

    /// Deep copy with the same model.
    pub fn duplicate(&self) -> (r: ObjectMap)
        ensures
            r@ == self@,
        decreases self,
    {
        let mut entries: Vec<(String, Value)> = Vec::new();
        let n = self.entries.len();
        let mut i: usize = 0;
        while i < n
            invariant
                i <= n,
                n == self.entries@.len(),
                entries@.len() == i,
                forall|j: int|
                    0 <= j < i ==> #[trigger] entries@[j].0@ == self.entries@[j].0@
                        && entries@[j].1.model() == self.entries@[j].1.model(),
            decreases n - i,
    {
            let entry = &self.entries[i];
            let copied = entry.1.duplicate();
            entries.push((entry.0.clone(), copied));
            i += 1;
        }
        let r = ObjectMap { entries };
        proof {
            lemma_entries_model(r.entries@);
            lemma_entries_model(self.entries@);
            assert(r@ =~= self@);
        }
        r
    }
}

} // verus!

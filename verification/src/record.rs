//! The record being transformed: a nested, ordered key/value tree
//! addressed by [`Path`]s, with get / insert / remove operations.

use vstd::prelude::*;
use crate::value::{Value, ObjectMap, ValModel, MapModel, map_find, map_set, map_unset};
use crate::value::lemma_map_find_absent;
use crate::path::{Path, seg_views, paths_diverge};

verus! {

/// Value addressed by `p`, if the whole path resolves.
pub open spec fn path_get(m: MapModel, p: Seq<Seq<char>>) -> Option<ValModel>
    decreases p.len(),
{
    if p.len() == 0 {
        None
    } else {
        match map_find(m, p[0]) {
            None => None,
            Some(v) => if p.len() == 1 {
                Some(v)
            } else {
                match v {
                    ValModel::Object(m2) => path_get(m2, p.drop_first()),
                    _ => None,
                }
            },
        }
    }
}

/// Write `v` at `p`, creating missing intermediate map levels and
/// replacing any non-map value standing in the way.
pub open spec fn path_insert(m: MapModel, p: Seq<Seq<char>>, v: ValModel) -> MapModel
    decreases p.len(),
{
    if p.len() == 0 {
        m
    } else if p.len() == 1 {
        map_set(m, p[0], v)
    } else {
        let child = match map_find(m, p[0]) {
            Some(ValModel::Object(m2)) => m2,
            _ => Seq::empty(),
        };
        map_set(m, p[0], ValModel::Object(path_insert(child, p.drop_first(), v)))
    }
}

/// Remove the node addressed by `p`, leaving ancestors in place (no
/// compaction of now-empty containers).  Removing an absent path leaves
/// the map unchanged.
pub open spec fn path_remove(m: MapModel, p: Seq<Seq<char>>) -> MapModel
    decreases p.len(),
{
    if p.len() == 0 {
        m
    } else if p.len() == 1 {
        map_unset(m, p[0])
    } else {
        match map_find(m, p[0]) {
            Some(ValModel::Object(m2)) => map_set(
                m,
                p[0],
                ValModel::Object(path_remove(m2, p.drop_first())),
            ),
            _ => m,
        }
    }
}

/// Look up `segs[i..]` in `m`.
fn obj_get<'a>(m: &'a ObjectMap, segs: &Vec<String>, i: usize) -> (r: Option<&'a Value>)
    requires
        i < segs@.len(),
    ensures
        match r {
            Some(v) => path_get(m@, seg_views(segs@).skip(i as int)) == Some(v@),
            None => path_get(m@, seg_views(segs@).skip(i as int)) is None,
        },
    decreases segs@.len() - i,
{
    let ghost p = seg_views(segs@).skip(i as int);
    proof {
        assert(p[0] == segs@[i as int]@);
        assert(p.drop_first() =~= seg_views(segs@).skip(i + 1));
    }
    let n = segs.len();
    match m.get(&segs[i]) {
        None => None,
        Some(v) => {
            if i + 1 == n {
                Some(v)
            } else {
                match v {
                    Value::Object(m2) => obj_get(m2, segs, i + 1),
                    _ => None,
                }
            }
        },
    }
}

/// Write `value` at `segs[i..]` in `m`.
fn obj_insert(m: &mut ObjectMap, segs: &Vec<String>, i: usize, value: Value)
    requires
        i < segs@.len(),
    ensures
        final(m)@ == path_insert(old(m)@, seg_views(segs@).skip(i as int), value@),
    decreases segs@.len() - i,
{
    let ghost p = seg_views(segs@).skip(i as int);
    proof {
        assert(p[0] == segs@[i as int]@);
        assert(p.drop_first() =~= seg_views(segs@).skip(i + 1));
    }
    let n = segs.len();
    if i + 1 == n {
        m.insert(segs[i].clone(), value);
    } else {
        let mut child: ObjectMap = match m.get(&segs[i]) {
            Some(Value::Object(m2)) => m2.duplicate(),
            _ => ObjectMap::new(),
        };
        obj_insert(&mut child, segs, i + 1, value);
        m.insert(segs[i].clone(), Value::Object(child));
    }
}

/// Remove the node at `segs[i..]` in `m`.
fn obj_remove(m: &mut ObjectMap, segs: &Vec<String>, i: usize)
    requires
        i < segs@.len(),
    ensures
        final(m)@ == path_remove(old(m)@, seg_views(segs@).skip(i as int)),
    decreases segs@.len() - i,
{
    let ghost p = seg_views(segs@).skip(i as int);
    proof {
        assert(p[0] == segs@[i as int]@);
        assert(p.drop_first() =~= seg_views(segs@).skip(i + 1));
    }
    let n = segs.len();
    if i + 1 == n {
        m.remove_key(&segs[i]);
    } else {
        let found = m.get(&segs[i]);
        match found {
            Some(Value::Object(m2)) => {
                let mut child = m2.duplicate();
                obj_remove(&mut child, segs, i + 1);
                m.insert(segs[i].clone(), Value::Object(child));
            },
            _ => {},
        }
    }
}

/// A single structured document being transformed; its top level is an
/// ordered map.
pub struct Record {
    pub fields: ObjectMap,
}

impl View for Record {
    type V = MapModel;

    open spec fn view(&self) -> MapModel {
        self.fields@
    }
}

impl Record {
    /// The empty record.
    pub fn new() -> (r: Record)
        ensures
            r@ == Seq::<(Seq<char>, ValModel)>::empty(),
    {
        Record { fields: ObjectMap::new() }
    }

    /// Value addressed by `path`, if present.
    pub fn get(&self, path: &Path) -> (r: Option<&Value>)
        requires
            path.wf(),
        ensures
            match r {
                Some(v) => path_get(self@, path@) == Some(v@),
                None => path_get(self@, path@) is None,
            },
    {
        proof {
            assert(path@.skip(0) =~= path@);
        }
        obj_get(&self.fields, &path.segments, 0)
    }

    /// Write `value` at `path`, creating missing intermediate map levels
    /// and overwriting any prior value there.
    pub fn insert(&mut self, path: &Path, value: Value)
        requires
            path.wf(),
        ensures
            final(self)@ == path_insert(old(self)@, path@, value@),
    {
        proof {
            assert(path@.skip(0) =~= path@);
        }
        obj_insert(&mut self.fields, &path.segments, 0, value);
    }

    /// Remove the node addressed by `path`, if present; ancestors are
    /// left in place.  Removing an absent path is a no-op.
    pub fn remove(&mut self, path: &Path)
        requires
            path.wf(),
        ensures
            final(self)@ == path_remove(old(self)@, path@),
    {
        proof {
            assert(path@.skip(0) =~= path@);
        }
        obj_remove(&mut self.fields, &path.segments, 0);
    }
}

/// Looking up the key just bound finds the new value.
pub proof fn lemma_map_set_find(m: MapModel, k: Seq<char>, v: ValModel)
    ensures
        map_find(map_set(m, k, v), k) == Some(v),
    decreases m.len(),
{
    if m.len() > 0 && m[0].0 != k {
        lemma_map_set_find(m.drop_first(), k, v);
        assert((seq![m[0]] + map_set(m.drop_first(), k, v)).drop_first() =~= map_set(
            m.drop_first(),
            k,
            v,
        ));
    }
}

/// Binding one key leaves every other key's binding unchanged.
pub proof fn lemma_map_set_find_other(m: MapModel, k: Seq<char>, v: ValModel, k2: Seq<char>)
    requires
        k2 != k,
    ensures
        map_find(map_set(m, k, v), k2) == map_find(m, k2),
    decreases m.len(),
{
    if m.len() == 0 {
        let e = Seq::<(Seq<char>, ValModel)>::empty();
        assert(seq![(k, v)].drop_first() =~= e);
        assert(map_find(e, k2) is None);
        assert(map_find(map_set(m, k, v), k2) is None);
    } else if m[0].0 == k {
        let s = seq![(k, v)] + m.drop_first();
        assert(s[0] == (k, v));
        assert(s.drop_first() =~= m.drop_first());
        assert(map_find(map_set(m, k, v), k2) == map_find(m.drop_first(), k2));
    } else {
        lemma_map_set_find_other(m.drop_first(), k, v, k2);
        let s = seq![m[0]] + map_set(m.drop_first(), k, v);
        assert(s[0] == m[0]);
        assert(s.drop_first() =~= map_set(m.drop_first(), k, v));
    }
}

/// Re-binding a key to the value it already has changes nothing.
pub proof fn lemma_map_set_same(m: MapModel, k: Seq<char>, v: ValModel)
    requires
        map_find(m, k) == Some(v),
    ensures
        map_set(m, k, v) == m,
    decreases m.len(),
{
    if m.len() > 0 {
        if m[0].0 == k {
            assert(map_set(m, k, v) =~= m);
        } else {
            lemma_map_set_same(m.drop_first(), k, v);
            assert(map_set(m, k, v) =~= m);
        }
    }
}

/// Assigning at `p` makes the value at `p` exactly the one written,
/// overwriting any prior value there.
pub proof fn lemma_path_insert_get(m: MapModel, p: Seq<Seq<char>>, v: ValModel)
    requires
        p.len() >= 1,
    ensures
        path_get(path_insert(m, p, v), p) == Some(v),
    decreases p.len(),
{
    if p.len() == 1 {
        lemma_map_set_find(m, p[0], v);
    } else {
        let child = match map_find(m, p[0]) {
            Some(ValModel::Object(m2)) => m2,
            _ => Seq::empty(),
        };
        lemma_path_insert_get(child, p.drop_first(), v);
        lemma_map_set_find(m, p[0], ValModel::Object(path_insert(child, p.drop_first(), v)));
    }
}

/// An insertion into the empty map resolves no path diverging from the
/// written one.
proof fn lemma_insert_empty_divergent(p: Seq<Seq<char>>, v: ValModel, q: Seq<Seq<char>>)
    requires
        p.len() >= 1,
        paths_diverge(p, q),
    ensures
        path_get(path_insert(Seq::empty(), p, v), q) is None,
    decreases p.len(),
{
    let d = choose|d: int|
        0 <= d < p.len() && d < q.len() && p[d] != q[d] && forall|e: int|
            0 <= e < d ==> p[e] == q[e];
    let empty = Seq::<(Seq<char>, ValModel)>::empty();
    if d == 0 {
        if p.len() == 1 {
            lemma_map_set_find_other(empty, p[0], v, q[0]);
        } else {
            lemma_map_set_find_other(
                empty,
                p[0],
                ValModel::Object(path_insert(empty, p.drop_first(), v)),
                q[0],
            );
        }
        lemma_map_find_absent(empty, q[0]);
    } else {
        assert(p.len() >= 2 && q.len() >= 2 && p[0] == q[0]);
        assert(paths_diverge(p.drop_first(), q.drop_first())) by {
            assert(0 <= d - 1 < p.drop_first().len() && d - 1 < q.drop_first().len());
            assert(p.drop_first()[d - 1] == p[d] && q.drop_first()[d - 1] == q[d]);
            assert(forall|e: int|
                0 <= e < d - 1 ==> p.drop_first()[e] == p[e + 1] && q.drop_first()[e] == q[e
                    + 1]);
        }
        lemma_insert_empty_divergent(p.drop_first(), v, q.drop_first());
        lemma_map_set_find(empty, p[0], ValModel::Object(path_insert(empty, p.drop_first(), v)));
    }
}

/// Assigning at `p` leaves every path diverging from `p` unchanged:
/// sibling paths are not altered.
pub proof fn lemma_path_insert_divergent(
    m: MapModel,
    p: Seq<Seq<char>>,
    v: ValModel,
    q: Seq<Seq<char>>,
)
    requires
        p.len() >= 1,
        paths_diverge(p, q),
    ensures
        path_get(path_insert(m, p, v), q) == path_get(m, q),
    decreases p.len(),
{
    let d = choose|d: int|
        0 <= d < p.len() && d < q.len() && p[d] != q[d] && forall|e: int|
            0 <= e < d ==> p[e] == q[e];
    if d == 0 {
        if p.len() == 1 {
            lemma_map_set_find_other(m, p[0], v, q[0]);
        } else {
            let child = match map_find(m, p[0]) {
                Some(ValModel::Object(m2)) => m2,
                _ => Seq::empty(),
            };
            lemma_map_set_find_other(
                m,
                p[0],
                ValModel::Object(path_insert(child, p.drop_first(), v)),
                q[0],
            );
        }
    } else {
        assert(p.len() >= 2 && q.len() >= 2 && p[0] == q[0]);
        assert(paths_diverge(p.drop_first(), q.drop_first())) by {
            assert(0 <= d - 1 < p.drop_first().len() && d - 1 < q.drop_first().len());
            assert(p.drop_first()[d - 1] == p[d] && q.drop_first()[d - 1] == q[d]);
            assert(forall|e: int|
                0 <= e < d - 1 ==> p.drop_first()[e] == p[e + 1] && q.drop_first()[e] == q[e
                    + 1]);
        }
        let child = match map_find(m, p[0]) {
            Some(ValModel::Object(m2)) => m2,
            _ => Seq::empty(),
        };
        lemma_map_set_find(m, p[0], ValModel::Object(path_insert(child, p.drop_first(), v)));
        match map_find(m, p[0]) {
            Some(ValModel::Object(m2)) => {
                lemma_path_insert_divergent(m2, p.drop_first(), v, q.drop_first());
            },
            _ => {
                lemma_insert_empty_divergent(p.drop_first(), v, q.drop_first());
            },
        }
    }
}

/// Removing a path that does not resolve leaves the record unchanged.
pub proof fn lemma_path_remove_absent(m: MapModel, p: Seq<Seq<char>>)
    requires
        p.len() >= 1,
        path_get(m, p) is None,
    ensures
        path_remove(m, p) == m,
    decreases p.len(),
{
    if p.len() == 1 {
        if map_find(m, p[0]) is None {
            lemma_map_unset_absent_of_find(m, p[0]);
        }
    } else {
        match map_find(m, p[0]) {
            Some(ValModel::Object(m2)) => {
                lemma_path_remove_absent(m2, p.drop_first());
                lemma_map_set_same(m, p[0], ValModel::Object(m2));
            },
            _ => {},
        }
    }
}

/// A key that `map_find` does not resolve occurs nowhere, so removing it
/// changes nothing.
proof fn lemma_map_unset_absent_of_find(m: MapModel, k: Seq<char>)
    requires
        map_find(m, k) is None,
    ensures
        map_unset(m, k) == m,
    decreases m.len(),
{
    if m.len() > 0 {
        lemma_map_unset_absent_of_find(m.drop_first(), k);
        assert(map_unset(m, k) =~= m);
    }
}

} // verus!

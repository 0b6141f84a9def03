//! Field projection: keep only the record paths covered by a set of
//! keep paths, removing all others.
//!
//! A path is covered by a keep path when it equals it or is a strict
//! descendant of it.  An entry survives either whole (a one-segment keep
//! path names it) or as the projection of its nested map under the keep
//! paths that descend through it; an entry left with nothing under it is
//! removed.

use vstd::prelude::*;
use crate::value::{Value, ObjectMap, ValModel, MapModel, map_find, keys_unique, wf_map};
use crate::value::{entries_model, lemma_entries_model, lemma_wf_find, lemma_map_find_absent};
use crate::path::{covered, covered_by};
use crate::path::Path;
use crate::record::path_get;

verus! {

/// Views of a sequence of paths.
pub open spec fn path_views(ps: Seq<Path>) -> Seq<Seq<Seq<char>>> {
    Seq::new(ps.len(), |i: int| ps[i]@)
}

/// Some keep path consists of exactly the key `k`.
pub open spec fn keeps_head(keeps: Seq<Seq<Seq<char>>>, k: Seq<char>) -> bool {
    exists|i: int| 0 <= i < keeps.len() && keeps[i].len() == 1 && keeps[i][0] == k
}

/// The keep paths descending through key `k`, with that first segment
/// stripped.
pub open spec fn sub_keeps(keeps: Seq<Seq<Seq<char>>>, k: Seq<char>) -> Seq<Seq<Seq<char>>>
    decreases keeps.len(),
{
    if keeps.len() == 0 {
        keeps
    } else {
        let rest = sub_keeps(keeps.drop_first(), k);
        if keeps[0].len() > 1 && keeps[0][0] == k {
            seq![keeps[0].drop_first()] + rest
        } else {
            rest
        }
    }
}

/// What one entry contributes to the projection: itself when named by a
/// one-segment keep path; the projection of its nested map when keep
/// paths descend through it and leave something; nothing otherwise.
pub open spec fn project_entry(k: Seq<char>, v: ValModel, keeps: Seq<Seq<Seq<char>>>) -> MapModel
    decreases v,
{
    if keeps_head(keeps, k) {
        seq![(k, v)]
    } else {
        let sk = sub_keeps(keeps, k);
        if sk.len() > 0 {
            match v {
                ValModel::Object(m2) => {
                    let pm = projected(m2, sk);
                    if pm.len() > 0 {
                        seq![(k, ValModel::Object(pm))]
                    } else {
                        Seq::empty()
                    }
                },
                _ => Seq::empty(),
            }
        } else {
            Seq::empty()
        }
    }
}

/// Projection of a map: each entry's contribution, in entry order.
pub open spec fn projected(m: MapModel, keeps: Seq<Seq<Seq<char>>>) -> MapModel
    decreases m,
{
    if m.len() == 0 {
        m
    } else {
        project_entry(m[0].0, m[0].1, keeps) + projected(m.drop_first(), keeps)
    }
}

/// Projecting one more entry appends its contribution.
proof fn lemma_projected_push(m: MapModel, x: (Seq<char>, ValModel), keeps: Seq<Seq<Seq<char>>>)
    ensures
        projected(m.push(x), keeps) == projected(m, keeps) + project_entry(x.0, x.1, keeps),
    decreases m.len(),
{
    if m.len() == 0 {
        assert(m.push(x)[0] == x);
        assert(m.push(x).drop_first() =~= m);
        assert(projected(m, keeps) =~= Seq::<(Seq<char>, ValModel)>::empty());
        assert(projected(m.push(x), keeps) =~= projected(m, keeps) + project_entry(
            x.0,
            x.1,
            keeps,
        ));
    } else {
        assert(m.push(x)[0] == m[0]);
        assert(m.push(x).drop_first() =~= m.drop_first().push(x));
        lemma_projected_push(m.drop_first(), x, keeps);
        assert(projected(m.push(x), keeps) =~= projected(m, keeps) + project_entry(
            x.0,
            x.1,
            keeps,
        ));
    }
}

/// Appending a keep path extends what `sub_keeps` strips.
proof fn lemma_sub_keeps_push(keeps: Seq<Seq<Seq<char>>>, x: Seq<Seq<char>>, k: Seq<char>)
    ensures
        sub_keeps(keeps.push(x), k) == if x.len() > 1 && x[0] == k {
            sub_keeps(keeps, k).push(x.drop_first())
        } else {
            sub_keeps(keeps, k)
        },
    decreases keeps.len(),
{
    if keeps.len() == 0 {
        assert(keeps.push(x)[0] == x);
        assert(keeps.push(x).drop_first() =~= keeps);
        if x.len() > 1 && x[0] == k {
            assert(sub_keeps(keeps.push(x), k) =~= sub_keeps(keeps, k).push(x.drop_first()));
        }
    } else {
        assert(keeps.push(x)[0] == keeps[0]);
        assert(keeps.push(x).drop_first() =~= keeps.drop_first().push(x));
        lemma_sub_keeps_push(keeps.drop_first(), x, k);
        if x.len() > 1 && x[0] == k {
            assert(sub_keeps(keeps.push(x), k) =~= sub_keeps(keeps, k).push(x.drop_first()));
        } else {
            assert(sub_keeps(keeps.push(x), k) =~= sub_keeps(keeps, k));
        }
    }
}

impl Path {
    /// The path without its first segment.
    pub fn strip_first(&self) -> (r: Path)
        requires
            self@.len() >= 2,
        ensures
            r@ == self@.drop_first(),
            r.wf(),
    {
        let mut segments: Vec<String> = Vec::new();
        let n = self.segments.len();
        let mut i: usize = 1;
        while i < n
            invariant
                1 <= i <= n,
                n == self.segments@.len(),
                segments@.len() == i - 1,
                forall|j: int|
                    0 <= j < i - 1 ==> #[trigger] segments@[j]@ == self.segments@[j + 1]@,
            decreases n - i,
        {
            segments.push(self.segments[i].clone());
            i += 1;
        }
        let r = Path { segments };
        proof {
            assert(r@ =~= self@.drop_first());
        }
        r
    }
}

/// Whether some keep path consists of exactly the key `key`.
fn keeps_head_exec(keeps: &Vec<Path>, key: &String) -> (r: bool)
    ensures
        r == keeps_head(path_views(keeps@), key@),
{
    let n = keeps.len();
    let mut idx: usize = 0;
    while idx < n
        invariant
            idx <= n,
            n == keeps@.len(),
            forall|i: int|
                0 <= i < idx ==> !(path_views(keeps@)[i].len() == 1 && path_views(keeps@)[i][0]
                    == key@),
        decreases n - idx,
    {
        let p = &keeps[idx];
        if p.segments.len() == 1 && p.segments[0].eq(key) {
            proof {
                assert(path_views(keeps@)[idx as int].len() == 1 && path_views(
                    keeps@,
                )[idx as int][0] == key@);
            }
            return true;
        }
        idx += 1;
    }
    false
}

/// The keep paths descending through `key`, with that segment stripped.
fn sub_keeps_exec(keeps: &Vec<Path>, key: &String) -> (r: Vec<Path>)
    ensures
        path_views(r@) == sub_keeps(path_views(keeps@), key@),
{
    let mut r: Vec<Path> = Vec::new();
    let n = keeps.len();
    let mut idx: usize = 0;
    proof {
        assert(path_views(keeps@).take(0) =~= Seq::<Seq<Seq<char>>>::empty());
        assert(path_views(r@) =~= sub_keeps(path_views(keeps@).take(0), key@));
    }
    while idx < n
        invariant
            idx <= n,
            n == keeps@.len(),
            path_views(r@) == sub_keeps(path_views(keeps@).take(idx as int), key@),
        decreases n - idx,
    {
        let ghost prefix = path_views(keeps@).take(idx as int);
        let ghost full = path_views(keeps@);
        proof {
            assert(full.take(idx + 1) =~= prefix.push(full[idx as int]));
            lemma_sub_keeps_push(prefix, full[idx as int], key@);
        }
        let p = &keeps[idx];
        if p.segments.len() > 1 && p.segments[0].eq(key) {
            let stripped = p.strip_first();
            r.push(stripped);
            proof {
                assert(path_views(r@) =~= sub_keeps(full.take(idx + 1), key@));
            }
        } else {
            proof {
                assert(path_views(r@) =~= sub_keeps(full.take(idx + 1), key@));
            }
        }
        idx += 1;
    }
    proof {
        assert(path_views(keeps@).take(n as int) =~= path_views(keeps@));
    }
    r
}

/// Projection of `m` under the keep paths.
pub fn project_map(m: &ObjectMap, keeps: &Vec<Path>) -> (r: ObjectMap)
    ensures
        r@ == projected(m@, path_views(keeps@)),
    decreases m,
{
    let ghost kv = path_views(keeps@);
    let mut out: Vec<(String, Value)> = Vec::new();
    let n = m.entries.len();
    let mut i: usize = 0;
    proof {
        lemma_entries_model(m.entries@);
        assert(m@.take(0) =~= Seq::<(Seq<char>, ValModel)>::empty());
        assert(entries_model(out@) =~= projected(m@.take(0), kv));
    }
    while i < n
        invariant
            i <= n,
            n == m.entries@.len(),
            m@.len() == n,
            forall|j: int| 0 <= j < n ==> m@[j] == (m.entries@[j].0@, m.entries@[j].1@),
            entries_model(out@) == projected(m@.take(i as int), kv),
            kv == path_views(keeps@),
        decreases n - i,
    {
        let ghost prefix = m@.take(i as int);
        proof {
            assert(m@.take(i + 1) =~= prefix.push(m@[i as int]));
            lemma_projected_push(prefix, m@[i as int], kv);
        }
        let entry = &m.entries[i];
        let ghost out0 = out@;
        if keeps_head_exec(keeps, &entry.0) {
            out.push((entry.0.clone(), entry.1.duplicate()));
            proof {
                lemma_entries_model_push_pair(out0, out@.last());
            }
        } else {
            let sk = sub_keeps_exec(keeps, &entry.0);
            let ghost skv = sub_keeps(kv, entry.0@);
            proof {
                assert(path_views(sk@).len() == sk@.len());
            }
            if sk.len() > 0 {
                match &entry.1 {
                    Value::Object(m2) => {
                        let pm = project_map(m2, &sk);
                        if !pm.is_empty() {
                            out.push((entry.0.clone(), Value::Object(pm)));
                            proof {
                                lemma_entries_model_push_pair(out0, out@.last());
                            }
                        }
                    },
                    _ => {},
                }
            }
        }
        proof {
            assert(entries_model(out@) =~= projected(m@.take(i + 1), kv));
        }
        i += 1;
    }
    let r = ObjectMap { entries: out };
    proof {
        assert(m@.take(n as int) =~= m@);
    }
    r
}

/// Pushing an entry pushes its model.
proof fn lemma_entries_model_push_pair(es: Seq<(String, Value)>, p: (String, Value))
    ensures
        entries_model(es.push(p)) == entries_model(es).push((p.0@, p.1@)),
{
    lemma_entries_model(es.push(p));
    lemma_entries_model(es);
    assert(forall|j: int| 0 <= j < es.len() ==> es.push(p)[j] == es[j]);
    assert(es.push(p)[es.len() as int] == p);
    assert(entries_model(es.push(p)) =~= entries_model(es).push((p.0@, p.1@)));
}

} // verus!

// The projection laws: a covered path keeps exactly its old value; a
// path that is not covered keeps no leaf, and vanishes entirely unless
// some keep path descends strictly below it.

verus! {

/// `q` lies strictly above some keep path.
pub open spec fn ancestor_of_keep(q: Seq<Seq<char>>, keeps: Seq<Seq<Seq<char>>>) -> bool {
    exists|i: int|
        0 <= i < keeps.len() && q.len() < keeps[i].len() && forall|e: int|
            0 <= e < q.len() ==> q[e] == keeps[i][e]
}

/// Every keep path descending through `k` contributes its tail to
/// `sub_keeps`.
proof fn lemma_sub_keeps_contains(keeps: Seq<Seq<Seq<char>>>, k: Seq<char>, i: int)
    requires
        0 <= i < keeps.len(),
        keeps[i].len() > 1,
        keeps[i][0] == k,
    ensures
        sub_keeps(keeps, k).contains(keeps[i].drop_first()),
    decreases keeps.len(),
{
    let sk = sub_keeps(keeps, k);
    if i == 0 {
        assert(sk[0] == keeps[0].drop_first());
        assert(sk.contains(keeps[0].drop_first()));
    } else {
        lemma_sub_keeps_contains(keeps.drop_first(), k, i - 1);
        assert(keeps.drop_first()[i - 1] == keeps[i]);
        let rest = sub_keeps(keeps.drop_first(), k);
        let j = choose|j: int| 0 <= j < rest.len() && rest[j] == keeps[i].drop_first();
        if keeps[0].len() > 1 && keeps[0][0] == k {
            assert(sk[j + 1] == rest[j]);
            assert(sk.contains(keeps[i].drop_first()));
        } else {
            assert(sk.contains(keeps[i].drop_first()));
        }
    }
}

/// Every element of `sub_keeps` is the tail of some keep path that
/// descends through `k`.
proof fn lemma_sub_keeps_from(keeps: Seq<Seq<Seq<char>>>, k: Seq<char>, j: int)
    requires
        0 <= j < sub_keeps(keeps, k).len(),
    ensures
        exists|i: int|
            0 <= i < keeps.len() && keeps[i].len() > 1 && keeps[i][0] == k && sub_keeps(
                keeps,
                k,
            )[j] == keeps[i].drop_first(),
    decreases keeps.len(),
{
    let sk = sub_keeps(keeps, k);
    if keeps[0].len() > 1 && keeps[0][0] == k {
        if j == 0 {
            assert(sk[0] == keeps[0].drop_first());
        } else {
            lemma_sub_keeps_from(keeps.drop_first(), k, j - 1);
            let i = choose|i: int|
                0 <= i < keeps.drop_first().len() && keeps.drop_first()[i].len() > 1
                    && keeps.drop_first()[i][0] == k && sub_keeps(keeps.drop_first(), k)[j - 1]
                    == keeps.drop_first()[i].drop_first();
            assert(keeps.drop_first()[i] == keeps[i + 1]);
            assert(sk[j] == sub_keeps(keeps.drop_first(), k)[j - 1]);
        }
    } else {
        lemma_sub_keeps_from(keeps.drop_first(), k, j);
        let i = choose|i: int|
            0 <= i < keeps.drop_first().len() && keeps.drop_first()[i].len() > 1
                && keeps.drop_first()[i][0] == k && sub_keeps(keeps.drop_first(), k)[j]
                == keeps.drop_first()[i].drop_first();
        assert(keeps.drop_first()[i] == keeps[i + 1]);
    }
}

/// What projection binds a key to: the old value when a one-segment
/// keep path names the key; the non-empty projection of its nested map
/// when keep paths descend through it; nothing otherwise.
proof fn lemma_projected_find(m: MapModel, keeps: Seq<Seq<Seq<char>>>, k: Seq<char>)
    requires
        keys_unique(m),
    ensures
        map_find(projected(m, keeps), k) == (match map_find(m, k) {
            None => None::<ValModel>,
            Some(v) => if keeps_head(keeps, k) {
                Some(v)
            } else {
                let sk = sub_keeps(keeps, k);
                if sk.len() > 0 {
                    match v {
                        ValModel::Object(m2) => if projected(m2, sk).len() > 0 {
                            Some(ValModel::Object(projected(m2, sk)))
                        } else {
                            None
                        },
                        _ => None,
                    }
                } else {
                    None
                }
            }
        }),
    decreases m.len(),
{
    if m.len() == 0 {
    } else {
        let k0 = m[0].0;
        let v0 = m[0].1;
        let pe = project_entry(k0, v0, keeps);
        let rest = m.drop_first();
        let pr = projected(rest, keeps);
        assert(keys_unique(rest)) by {
            assert(forall|i: int| 0 <= i < rest.len() ==> rest[i] == m[i + 1]);
        }
        lemma_projected_find(rest, keeps, k);
        assert(projected(m, keeps) == pe + pr);
        if k0 == k {
            assert(map_find(m, k) == Some(v0));
            assert(forall|i: int| 0 <= i < rest.len() ==> (#[trigger] rest[i]).0 != k) by {
                assert(forall|i: int| 0 <= i < rest.len() ==> rest[i] == m[i + 1]);
            }
            lemma_map_find_absent(rest, k);
            if pe.len() > 0 {
                assert(pe.len() == 1 && pe[0].0 == k);
                assert((pe + pr)[0] == pe[0]);
                assert(map_find(pe + pr, k) == Some(pe[0].1));
            } else {
                assert(pe + pr =~= pr);
            }
        } else {
            if pe.len() > 0 {
                assert(pe.len() == 1 && pe[0].0 == k0);
                assert((pe + pr)[0] == pe[0]);
                assert((pe + pr).drop_first() =~= pr);
                assert(map_find(pe + pr, k) == map_find(pr, k));
            } else {
                assert(pe + pr =~= pr);
            }
            assert(map_find(m, k) == map_find(rest, k));
        }
    }
}

/// A covered path keeps exactly the value it had: projection neither
/// changes nor removes anything at or below a keep path, whether or not
/// the keep paths exist in the record.
pub proof fn lemma_projected_covered(m: MapModel, keeps: Seq<Seq<Seq<char>>>, q: Seq<Seq<char>>)
    requires
        wf_map(m),
        q.len() >= 1,
        forall|i: int| 0 <= i < keeps.len() ==> (#[trigger] keeps[i]).len() >= 1,
        covered(q, keeps),
    ensures
        path_get(projected(m, keeps), q) == path_get(m, q),
    decreases q.len(),
{
    let k = q[0];
    lemma_projected_find(m, keeps, k);
    lemma_wf_find(m, k);
    if keeps_head(keeps, k) {
        assert(map_find(projected(m, keeps), k) == map_find(m, k));
    } else {
        let pi = choose|i: int| 0 <= i < keeps.len() && covered_by(q, keeps[i]);
        let pp = keeps[pi];
        assert(pp.len() >= 1 && pp[0] == q[0]);
        assert(pp.len() != 1);
        lemma_sub_keeps_contains(keeps, k, pi);
        let sk = sub_keeps(keeps, k);
        assert(sk.len() > 0);
        assert(covered_by(q.drop_first(), pp.drop_first())) by {
            assert(forall|e: int|
                0 <= e < pp.drop_first().len() ==> pp.drop_first()[e] == pp[e + 1]
                    && q.drop_first()[e] == q[e + 1]);
        }
        assert(covered(q.drop_first(), sk)) by {
            let j = choose|j: int| 0 <= j < sk.len() && sk[j] == pp.drop_first();
            assert(covered_by(q.drop_first(), sk[j]));
        }
        assert(forall|j: int| 0 <= j < sk.len() ==> (#[trigger] sk[j]).len() >= 1) by {
            assert forall|j: int| 0 <= j < sk.len() implies (#[trigger] sk[j]).len() >= 1 by {
                lemma_sub_keeps_from(keeps, k, j);
            }
        }
        match map_find(m, k) {
            None => {},
            Some(v) => {
                match v {
                    ValModel::Object(m2) => {
                        assert(q.len() >= 2);
                        lemma_projected_covered(m2, sk, q.drop_first());
                        if projected(m2, sk).len() > 0 {
                        } else {
                            assert(path_get(projected(m2, sk), q.drop_first()) is None);
                        }
                    },
                    _ => {
                        assert(q.len() >= 2);
                    },
                }
            },
        }
    }
}

/// A path that is not covered keeps no leaf: whatever projection leaves
/// at it can only be a map pruned further down.
pub proof fn lemma_projected_not_covered(m: MapModel, keeps: Seq<Seq<Seq<char>>>, q: Seq<
    Seq<char>,
>)
    requires
        wf_map(m),
        q.len() >= 1,
        !covered(q, keeps),
    ensures
        path_get(projected(m, keeps), q) is None || path_get(projected(m, keeps), q) matches Some(
            ValModel::Object(_),
        ),
    decreases q.len(),
{
    let k = q[0];
    lemma_projected_find(m, keeps, k);
    lemma_wf_find(m, k);
    if keeps_head(keeps, k) {
        let i = choose|i: int| 0 <= i < keeps.len() && keeps[i].len() == 1 && keeps[i][0] == k;
        assert(covered_by(q, keeps[i]));
        assert(false);
    }
    let sk = sub_keeps(keeps, k);
    match map_find(m, k) {
        None => {},
        Some(v) => {
            if sk.len() > 0 {
                match v {
                    ValModel::Object(m2) => {
                        if projected(m2, sk).len() > 0 {
                            if q.len() == 1 {
                            } else {
                                assert(!covered(q.drop_first(), sk)) by {
                                    if covered(q.drop_first(), sk) {
                                        let j = choose|j: int|
                                            0 <= j < sk.len() && covered_by(q.drop_first(), sk[j]);
                                        lemma_sub_keeps_from(keeps, k, j);
                                        let i = choose|i: int|
                                            0 <= i < keeps.len() && keeps[i].len() > 1
                                                && keeps[i][0] == k && sk[j]
                                                == keeps[i].drop_first();
                                        assert(keeps[i].len() <= q.len());
                                        assert forall|e: int|
                                            0 <= e < keeps[i].len() implies keeps[i][e]
                                            == q[e] by {
                                            if e > 0 {
                                                let ki = keeps[i];
                                                assert(ki.drop_first()[e - 1] == ki[e]);
                                                assert(q.drop_first()[e - 1] == q[e]);
                                                assert(sk[j][e - 1] == q.drop_first()[e - 1]);
                                            }
                                        }
                                        assert(covered_by(q, keeps[i]));
                                        assert(false);
                                    }
                                }
                                lemma_projected_not_covered(m2, sk, q.drop_first());
                            }
                        }
                    },
                    _ => {},
                }
            }
        },
    }
}

/// A path that is neither covered nor strictly above a keep path is
/// removed entirely.
pub proof fn lemma_projected_removed(m: MapModel, keeps: Seq<Seq<Seq<char>>>, q: Seq<Seq<char>>)
    requires
        wf_map(m),
        q.len() >= 1,
        !covered(q, keeps),
        !ancestor_of_keep(q, keeps),
    ensures
        path_get(projected(m, keeps), q) is None,
    decreases q.len(),
{
    let k = q[0];
    lemma_projected_find(m, keeps, k);
    lemma_wf_find(m, k);
    if keeps_head(keeps, k) {
        let i = choose|i: int| 0 <= i < keeps.len() && keeps[i].len() == 1 && keeps[i][0] == k;
        assert(covered_by(q, keeps[i]));
        assert(false);
    }
    let sk = sub_keeps(keeps, k);
    match map_find(m, k) {
        None => {},
        Some(v) => {
            if sk.len() > 0 {
                match v {
                    ValModel::Object(m2) => {
                        if projected(m2, sk).len() > 0 {
                            assert(q.len() >= 2) by {
                                if q.len() == 1 {
                                    lemma_sub_keeps_from(keeps, k, 0);
                                    let i = choose|i: int|
                                        0 <= i < keeps.len() && keeps[i].len() > 1 && keeps[i][0]
                                            == k && sk[0] == keeps[i].drop_first();
                                    assert(q.len() < keeps[i].len() && forall|e: int|
                                        0 <= e < q.len() ==> q[e] == keeps[i][e]);
                                    assert(ancestor_of_keep(q, keeps));
                                    assert(false);
                                }
                            }
                            assert(!covered(q.drop_first(), sk)) by {
                                if covered(q.drop_first(), sk) {
                                    let j = choose|j: int|
                                        0 <= j < sk.len() && covered_by(q.drop_first(), sk[j]);
                                    lemma_sub_keeps_from(keeps, k, j);
                                    let i = choose|i: int|
                                        0 <= i < keeps.len() && keeps[i].len() > 1 && keeps[i][0]
                                            == k && sk[j] == keeps[i].drop_first();
                                    assert(keeps[i].len() <= q.len());
                                    assert forall|e: int|
                                        0 <= e < keeps[i].len() implies keeps[i][e] == q[e] by {
                                        if e > 0 {
                                            assert(keeps[i].drop_first()[e - 1] == keeps[i][e]);
                                            assert(q.drop_first()[e - 1] == q[e]);
                                            assert(sk[j][e - 1] == q.drop_first()[e - 1]);
                                        }
                                    }
                                    assert(covered_by(q, keeps[i]));
                                    assert(false);
                                }
                            }
                            assert(!ancestor_of_keep(q.drop_first(), sk)) by {
                                if ancestor_of_keep(q.drop_first(), sk) {
                                    let j = choose|j: int|
                                        0 <= j < sk.len() && q.drop_first().len() < sk[j].len()
                                            && forall|e: int|
                                            0 <= e < q.drop_first().len() ==> q.drop_first()[e]
                                                == sk[j][e];
                                    lemma_sub_keeps_from(keeps, k, j);
                                    let i = choose|i: int|
                                        0 <= i < keeps.len() && keeps[i].len() > 1 && keeps[i][0]
                                            == k && sk[j] == keeps[i].drop_first();
                                    assert(q.len() < keeps[i].len());
                                    assert forall|e: int| 0 <= e < q.len() implies q[e]
                                        == keeps[i][e] by {
                                        if e > 0 {
                                            assert(keeps[i].drop_first()[e - 1] == keeps[i][e]);
                                            assert(q.drop_first()[e - 1] == q[e]);
                                            assert(q.drop_first()[e - 1] == sk[j][e - 1]);
                                        }
                                    }
                                    assert(ancestor_of_keep(q, keeps));
                                    assert(false);
                                }
                            }
                            lemma_projected_removed(m2, sk, q.drop_first());
                        }
                    },
                    _ => {},
                }
            }
        },
    }
}

} // verus!

//! Recursive structural merge of two maps: the second map is merged into
//! the first.  With `deep` set, keys bound to maps on both sides are
//! merged key by key recursively; every other shared key is overwritten
//! wholesale by the source's value.

use vstd::prelude::*;
use crate::value::{Value, ObjectMap, ValModel, MapModel, map_find, map_set, keys_unique};
use crate::value::lemma_entries_model;
use crate::value::lemma_map_find_absent;
use crate::record::{lemma_map_set_find, lemma_map_set_find_other};

verus! {

/// Merge the single source entry `(k, v)` into `d`.
pub open spec fn merge_one(d: MapModel, k: Seq<char>, v: ValModel, deep: bool) -> MapModel
    decreases v,
{
    match (map_find(d, k), v) {
        (Some(ValModel::Object(dm)), ValModel::Object(sm)) => if deep {
            map_set(d, k, ValModel::Object(merged_maps(dm, sm, true)))
        } else {
            map_set(d, k, v)
        },
        _ => map_set(d, k, v),
    }
}

/// Merge `s` into `d`, entry by entry in `s`'s order.
pub open spec fn merged_maps(d: MapModel, s: MapModel, deep: bool) -> MapModel
    decreases s,
{
    if s.len() == 0 {
        d
    } else {
        merged_maps(merge_one(d, s[0].0, s[0].1, deep), s.drop_first(), deep)
    }
}

/// Merging one more source entry extends the merge of the prefix.
proof fn lemma_merged_take_step(d: MapModel, s: MapModel, i: int, deep: bool)
    requires
        0 <= i < s.len(),
    ensures
        merged_maps(d, s.take(i + 1), deep) == merge_one(
            merged_maps(d, s.take(i), deep),
            s[i].0,
            s[i].1,
            deep,
        ),
    decreases i,
{
    let e = Seq::<(Seq<char>, ValModel)>::empty();
    let d1 = merge_one(d, s[0].0, s[0].1, deep);
    if i == 0 {
        assert(s.take(1).len() == 1 && s.take(1)[0] == s[0]);
        assert(s.take(1).drop_first() =~= e);
        assert(merged_maps(d1, e, deep) == d1);
        assert(merged_maps(d, s.take(1), deep) == merged_maps(d1, s.take(1).drop_first(), deep));
        assert(s.take(0) =~= e);
        assert(merged_maps(d, e, deep) == d);
    } else {
        assert(s.take(i + 1).len() == i + 1 && s.take(i + 1)[0] == s[0]);
        assert(s.take(i).len() == i && s.take(i)[0] == s[0]);
        assert(merged_maps(d, s.take(i + 1), deep) == merged_maps(
            d1,
            s.take(i + 1).drop_first(),
            deep,
        ));
        assert(merged_maps(d, s.take(i), deep) == merged_maps(d1, s.take(i).drop_first(), deep));
        assert(s.take(i + 1).drop_first() =~= s.drop_first().take(i));
        assert(s.take(i).drop_first() =~= s.drop_first().take(i - 1));
        lemma_merged_take_step(d1, s.drop_first(), i - 1, deep);
        assert(s.drop_first()[i - 1] == s[i]);
    }
}

/// Merges two maps of values.  The second map is merged into the first
/// one.
///
/// If `deep` is false, should both maps contain a field with the same
/// name, the field from the first is overwritten with the field from the
/// second.
///
/// If `deep` is true, should both maps contain a field with the same
/// name, and both those fields are also maps, the merge recurses and the
/// child fields from the second are merged into the child fields from the
/// first.
pub fn merge_maps(map1: &mut ObjectMap, map2: &ObjectMap, deep: bool)
    ensures
        final(map1)@ == merged_maps(old(map1)@, map2@, deep),
    decreases map2,
{
    let ghost d0 = map1@;
    proof {
        lemma_entries_model(map2.entries@);
        assert(map2@.take(0) =~= Seq::<(Seq<char>, ValModel)>::empty());
    }
    let n = map2.entries.len();
    let mut i: usize = 0;
    while i < n
        invariant
            i <= n,
            n == map2.entries@.len(),
            map2@.len() == n,
            forall|j: int|
                0 <= j < n ==> map2@[j] == (map2.entries@[j].0@, map2.entries@[j].1@),
            map1@ == merged_maps(d0, map2@.take(i as int), deep),
        decreases n - i,
    {
        let ghost dcur = map1@;
        let entry = &map2.entries[i];
        if deep {
            let dm_opt: Option<ObjectMap> = match map1.get(&entry.0) {
                Some(Value::Object(dm)) => Some(dm.duplicate()),
                _ => None,
            };
            match (dm_opt, &entry.1) {
                (Some(mut child), Value::Object(sm)) => {
                    merge_maps(&mut child, sm, true);
                    map1.insert(entry.0.clone(), Value::Object(child));
                },
                (_, other) => {
                    map1.insert(entry.0.clone(), other.duplicate());
                },
            }
        } else {
            map1.insert(entry.0.clone(), entry.1.duplicate());
        }
        proof {
            assert(map1@ == merge_one(dcur, map2@[i as int].0, map2@[i as int].1, deep));
            lemma_merged_take_step(d0, map2@, i as int, deep);
        }
        i += 1;
    }
    proof {
        assert(map2@.take(n as int) =~= map2@);
    }
}

/// What merging binds each key to, stated key by key: a key bound to
/// maps on both sides is merged recursively when `deep` is set and
/// overwritten by the source's map otherwise; every other key present in
/// the source is overwritten by or added with the source's value; keys
/// present only in the destination keep their value.
pub proof fn lemma_merged_maps_find(d: MapModel, s: MapModel, deep: bool, k: Seq<char>)
    requires
        keys_unique(s),
    ensures
        map_find(merged_maps(d, s, deep), k) == match (map_find(d, k), map_find(s, k)) {
            (Some(ValModel::Object(dm)), Some(ValModel::Object(sm))) => if deep {
                Some(ValModel::Object(merged_maps(dm, sm, true)))
            } else {
                Some(ValModel::Object(sm))
            },
            (_, Some(sv)) => Some(sv),
            (dv, None) => dv,
        },
    decreases s.len(),
{
    if s.len() == 0 {
    } else {
        let k0 = s[0].0;
        let v0 = s[0].1;
        let d1 = merge_one(d, k0, v0, deep);
        assert(keys_unique(s.drop_first())) by {
            assert(forall|i: int, j: int|
                0 <= i < j < s.drop_first().len() ==> s.drop_first()[i] == s[i + 1]
                    && s.drop_first()[j] == s[j + 1]);
        }
        lemma_merged_maps_find(d1, s.drop_first(), deep, k);
        if k == k0 {
            assert(forall|i: int|
                0 <= i < s.drop_first().len() ==> #[trigger] s.drop_first()[i].0 == s[i + 1].0
                    && s[i + 1].0 != k0);
            lemma_map_find_absent(s.drop_first(), k);
            match (map_find(d, k0), v0) {
                (Some(ValModel::Object(dm)), ValModel::Object(sm)) => {
                    if deep {
                        lemma_map_set_find(d, k0, ValModel::Object(merged_maps(dm, sm, true)));
                    } else {
                        lemma_map_set_find(d, k0, v0);
                    }
                },
                _ => {
                    lemma_map_set_find(d, k0, v0);
                },
            }
        } else {
            assert(map_find(s, k) == map_find(s.drop_first(), k));
            match (map_find(d, k0), v0) {
                (Some(ValModel::Object(dm)), ValModel::Object(sm)) => {
                    if deep {
                        lemma_map_set_find_other(
                            d,
                            k0,
                            ValModel::Object(merged_maps(dm, sm, true)),
                            k,
                        );
                    } else {
                        lemma_map_set_find_other(d, k0, v0, k);
                    }
                },
                _ => {
                    lemma_map_set_find_other(d, k0, v0, k);
                },
            }
        }
    }
}

} // verus!

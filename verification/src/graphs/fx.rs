//! The Fx hash collections (from `rustc_hash`) that the SCC code keeps its sets and maps in.
//!
//! `FxHashSet<K>` and `FxHashMap<K, V>` are std's `HashSet` and `HashMap` with the
//! deterministic `FxBuildHasher`. The operations below are what the verified code calls
//! on them; each states how the set or map seen as a mathematical `Set` or `Map` changes.

use crate::graphs::scc::{SccExit, SccInfo};
use rustc_hash::{FxBuildHasher, FxHashMap, FxHashSet};
use vstd::prelude::*;

verus! {

/// The hasher builder of the Fx collections, declared so that the collections can appear
/// in signatures and fields.
#[verifier::external_type_specification]
#[verifier::external_body]
pub struct ExFxBuildHasher(FxBuildHasher);

/// `HashSet::insert` on an Fx set of `usize`: the key is added to the set.
#[verifier::external_body]
pub(crate) fn fx_set_insert(set: &mut FxHashSet<usize>, key: usize)
    ensures
        final(set)@ == old(set)@.insert(key),
{
    set.insert(key);
}

/// `HashSet::contains` on an Fx set of `usize`: whether the key is in the set.
#[verifier::external_body]
pub(crate) fn fx_set_contains(set: &FxHashSet<usize>, key: usize) -> (found: bool)
    ensures
        found == set@.contains(key),
{
    set.contains(&key)
}

/// `HashSet::remove` on an Fx set of `usize`: the key is taken out of the set.
#[verifier::external_body]
pub(crate) fn fx_set_remove(set: &mut FxHashSet<usize>, key: usize)
    ensures
        final(set)@ == old(set)@.remove(key),
{
    set.remove(&key);
}

/// `HashSet::into_iter` collected into a `Vec`: every element of the set once, in the
/// set's iteration order (which this contract leaves open).
#[verifier::external_body]
pub(crate) fn fx_set_into_vec(set: FxHashSet<usize>) -> (items: Vec<usize>)
    ensures
        items@.to_set() == set@,
        items@.no_duplicates(),
{
    set.into_iter().collect()
}

/// `FromIterator::from_iter` for an Fx set, fed with the entries of a successor list when
/// there is one: the set of those entries, or the empty set.
#[verifier::external_body]
pub(crate) fn fx_set_collect(items: Option<&Vec<usize>>) -> (set: FxHashSet<usize>)
    ensures
        set@ == match items {
            Some(v) => v@.to_set(),
            None => Set::empty(),
        },
{
    items.into_iter().flatten().copied().collect()
}

/// `HashMap::insert` on an Fx map from `usize` to `usize`: the key now maps to the value.
#[verifier::external_body]
pub(crate) fn fx_map_insert(map: &mut FxHashMap<usize, usize>, key: usize, value: usize)
    ensures
        final(map)@ == old(map)@.insert(key, value),
{
    map.insert(key, value);
}

/// `Clone::clone` on an Fx set of `usize`: a set with the same elements.
#[verifier::external_body]
pub(crate) fn fx_set_clone(set: &FxHashSet<usize>) -> (copy: FxHashSet<usize>)
    ensures
        copy@ == set@,
{
    set.clone()
}

/// `Clone::clone` on an Fx set of SCC exit edges: a set with the same elements (each edge
/// is cloned field by field).
#[verifier::external_body]
pub(crate) fn fx_exit_set_clone(set: &FxHashSet<SccExit>) -> (copy: FxHashSet<SccExit>)
    ensures
        copy@ == set@,
{
    set.clone()
}

/// `HashSet::iter` over an Fx set of `usize`, collected into a `Vec`: every element once,
/// in the set's iteration order (which this contract leaves open).
#[verifier::external_body]
pub(crate) fn fx_set_items(set: &FxHashSet<usize>) -> (items: Vec<usize>)
    ensures
        items@.to_set() == set@,
        items@.no_duplicates(),
{
    set.iter().copied().collect()
}

/// `HashMap::entry(key).or_insert(value)` on an Fx map of SCC metadata: the value is
/// stored under the key unless the key is already present.
#[verifier::external_body]
pub(crate) fn fx_info_map_insert_if_absent(
    map: &mut FxHashMap<usize, SccInfo>,
    key: usize,
    value: SccInfo,
)
    ensures
        final(map)@ == if old(map)@.contains_key(key) {
            old(map)@
        } else {
            old(map)@.insert(key, value)
        },
{
    map.entry(key).or_insert(value);
}

/// `HashMap::into_iter` on an Fx map of SCC metadata, collected into a `Vec`: every entry
/// once, in the map's iteration order (the order `into_values` also follows, which this
/// contract leaves open).
#[verifier::external_body]
pub(crate) fn fx_info_map_into_entries(map: FxHashMap<usize, SccInfo>) -> (entries: Vec<(usize, SccInfo)>)
    ensures
        forall|i: int|
            0 <= i < entries@.len() ==> map@.contains_key(#[trigger] entries@[i].0) && map@[entries@[i].0]
                == entries@[i].1,
        forall|k: usize| #[trigger] map@.contains_key(k) ==> exists|i: int| 0 <= i < entries@.len() && #[trigger] entries@[i].0 == k,
        forall|i: int, j: int|
            0 <= i < j < entries@.len() ==> #[trigger] entries@[i].0 != #[trigger] entries@[j].0,
{
    map.into_iter().collect()
}

} // verus!

//! Hash maps with the hasher of the `rustc_hash` crate.
//!
//! [`FxHashMap`] is the `HashMap` of the standard library, which looks keys up
//! by their `Hash` and `Eq`, with a hasher that starts from zero in every map.
use std::hash::BuildHasherDefault;
use std::hash::Hash;

use rustc_hash::FxHashMap;
use rustc_hash::FxHasher;
use vstd::prelude::*;

verus! {

/// The hasher.
#[verifier::external_type_specification]
#[verifier::external_body]
pub struct ExFxHasher(FxHasher);

/// What makes a hasher for a map.
#[verifier::external_type_specification]
#[verifier::external_body]
#[verifier::reject_recursive_types(H)]
pub struct ExBuildHasherDefault<H>(BuildHasherDefault<H>);

/// The keys that the maps of this crate have. Two of them are equal, for `Eq`,
/// if and only if their views are, and equal ones have the same hash.
pub(crate) trait FxKey: Eq + Hash + View {

}

impl FxKey for u32 {

}

impl FxKey for usize {

}

impl FxKey for String {

}

/// What a map holds, by the views of the keys.
pub open spec fn contents<K: View, V>(m: FxHashMap<K, V>) -> Map<K::V, V> {
    Map::new(
        |k: K::V| exists|key: K| #[trigger] m@.contains_key(key) && key@ == k,
        |k: K::V| m@[choose|key: K| #[trigger] m@.contains_key(key) && key@ == k],
    )
}

/// Calls `HashMap::get`: gives what the map holds under `k`, if anything.
#[verifier::external_body]
pub(crate) fn fx_get<'a, K: FxKey, V>(m: &'a FxHashMap<K, V>, k: &K) -> (r: Option<&'a V>)
    ensures
        match r {
            Some(v) => contents(*m).contains_key(k@) && *v == contents(*m)[k@],
            None => !contents(*m).contains_key(k@),
        },
{
    m.get(k)
}

/// Calls `HashMap::insert`: puts `v` under `k`, in place of what is there, and
/// leaves the rest as it is.
#[verifier::external_body]
pub(crate) fn fx_insert<K: FxKey, V>(m: &mut FxHashMap<K, V>, k: K, v: V)
    ensures
        contents(*final(m)) == contents(*old(m)).insert(k@, v),
{
    m.insert(k, v);
}

/// Calls `HashMap::remove`: takes what is under `k` out of the map, if anything,
/// gives it back, and leaves the rest as it is.
#[verifier::external_body]
pub(crate) fn fx_remove<K: FxKey, V>(m: &mut FxHashMap<K, V>, k: &K) -> (r: Option<V>)
    ensures
        contents(*final(m)) == contents(*old(m)).remove(k@),
        match r {
            Some(v) => contents(*old(m)).contains_key(k@) && v == contents(*old(m))[k@],
            None => !contents(*old(m)).contains_key(k@),
        },
{
    m.remove(k)
}

/// An empty map.
pub(crate) fn fx_new<K: View, V>() -> (r: FxHashMap<K, V>)
    ensures
        contents(r) == Map::<K::V, V>::empty(),
{
    let r: FxHashMap<K, V> = FxHashMap::default();
    assert(contents(r) =~= Map::<K::V, V>::empty());
    r
}

} // verus!

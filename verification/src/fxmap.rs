//! The hash map of `rustc_hash`, keyed by integers and by tuples of integers.
//!
//! `FxHashMap<K, V>` is the standard library's `HashMap` with the hasher builder of `rustc_hash`. The
//! functions here are the operations of that map which the library uses; their contracts speak of the
//! map's contents as a mathematical map and say nothing of the order in which it is walked.

use rustc_hash::{FxBuildHasher, FxHashMap};
use std::hash::Hash;
use vstd::prelude::*;

verus! {

/// The hasher builder of `rustc_hash`. It holds no data: every hasher it builds starts from the same
/// state, so equal keys have equal hashes.
#[verifier::external_type_specification]
#[verifier::external_body]
pub struct ExFxBuildHasher(FxBuildHasher);

/// The key types of the maps here: integers and tuples of integers, whose equality and hash are those
/// of their values.
pub trait FxKey {

}

impl FxKey for u16 {

}

impl FxKey for u32 {

}

impl FxKey for (i32, i32, i32) {

}

impl FxKey for (i32, i32, i32, u32) {

}

/// `FxHashMap::default`: a map without entries.
#[verifier::external_body]
pub(crate) fn fx_new<K: FxKey + Copy + Eq + Hash, V>() -> (m: FxHashMap<K, V>)
    ensures
        (m@ == Map::<K, V>::empty()),
{
    FxHashMap::default()
}

/// `FxHashMap::insert`: afterwards `k` maps to `v` and every other key maps as before.
#[verifier::external_body]
pub(crate) fn fx_insert<K: FxKey + Copy + Eq + Hash, V>(m: &mut FxHashMap<K, V>, k: K, v: V)
    ensures
        final(m)@ == old(m)@.insert(k, v),
{
    m.insert(k, v);
}

/// `FxHashMap::remove`: takes the entry of `k` out of the map and returns its value, or returns `None`
/// and leaves the map as it is where there is none.
#[verifier::external_body]
pub(crate) fn fx_remove<K: FxKey + Copy + Eq + Hash, V>(m: &mut FxHashMap<K, V>, k: K) -> (r: Option<V>)
    ensures
        final(m)@ == old(m)@.remove(k),
        r == (if old(m)@.dom().contains(k) { Some(old(m)@[k]) } else { None }),
{
    m.remove(&k)
}

/// `FxHashMap::get`: the value of `k`, or `None` where the map has no entry for it.
#[verifier::external_body]
pub(crate) fn fx_get<K: FxKey + Copy + Eq + Hash, V>(m: &FxHashMap<K, V>, k: K) -> (r: Option<&V>)
    ensures
        r is Some == m@.dom().contains(k),
        r matches Some(v) ==> *v == m@[k],
{
    m.get(&k)
}

/// `FxHashMap::contains_key`: whether the map has an entry for `k`.
#[verifier::external_body]
pub(crate) fn fx_contains<K: FxKey + Copy + Eq + Hash, V>(m: &FxHashMap<K, V>, k: K) -> (b: bool)
    ensures
        b == m@.dom().contains(k),
{
    m.contains_key(&k)
}

/// `FxHashMap::len`: the number of entries.
#[verifier::external_body]
pub(crate) fn fx_len<K: FxKey + Copy + Eq + Hash, V>(m: &FxHashMap<K, V>) -> (n: usize)
    ensures
        n == m@.dom().len(),
{
    m.len()
}

/// `FxHashMap::keys`, collected: every key once, in an order that is left open.
#[verifier::external_body]
pub(crate) fn fx_keys<K: FxKey + Copy + Eq + Hash, V>(m: &FxHashMap<K, V>) -> (ks: Vec<K>)
    ensures
        ks@.no_duplicates(),
        forall|k: K| #[trigger] m@.dom().contains(k) <==> ks@.contains(k),
{
    m.keys().copied().collect()
}

} // verus!

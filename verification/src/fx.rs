//! Hash maps and hash sets that use the Fx hasher.
//!
//! The Fx hasher has no seed and starts from zero, so equal keys have equal
//! hashes in every map. What `vstd` leaves open of the methods here, for a
//! hasher that it knows nothing of, is stated for this one.
use fxhash::FxHashMap;
use fxhash::FxHashSet;
use std::hash::Hash;
use vstd::prelude::*;
use vstd::std_specs::hash::obeys_key_model;

verus! {

/// `fxhash::FxHasher`, as an opaque type.
#[verifier::external_type_specification]
#[verifier::external_body]
pub struct ExFxHasher(fxhash::FxHasher);

/// `std::hash::BuildHasherDefault`, as an opaque type: with `FxHasher` it is
/// the hasher of `FxHashMap` and `FxHashSet`.
#[verifier::external_type_specification]
#[verifier::external_body]
#[verifier::reject_recursive_types(H)]
pub struct ExBuildHasherDefault<H>(std::hash::BuildHasherDefault<H>);

/// `FxHashMap::insert`: the map then holds `v` under `k`, and under every other
/// key what it held. This holds of keys whose `Eq` and `Hash` tell them apart
/// as the mathematical map does.
#[verifier::external_body]
pub(crate) fn map_insert<K: Eq + Hash, V>(m: &mut FxHashMap<K, V>, k: K, v: V)
    ensures
        obeys_key_model::<K>() ==> final(m)@ == old(m)@.insert(k, v),
{
    m.insert(k, v);
}

/// `FxHashMap::get`: what the map holds under the key, if it holds anything.
#[verifier::external_body]
pub(crate) fn map_get<'m, K: Eq + Hash, V>(m: &'m FxHashMap<K, V>, k: &K) -> (r: Option<&'m V>)
    ensures
        obeys_key_model::<K>() ==> r == (if m@.contains_key(*k) {
            Some(&m@[*k])
        } else {
            None
        }),
{
    m.get(k)
}

/// `FxHashSet::insert`: the set then holds `k` besides what it held.
#[verifier::external_body]
pub(crate) fn set_insert<K: Eq + Hash>(s: &mut FxHashSet<K>, k: K)
    ensures
        obeys_key_model::<K>() ==> final(s)@ == old(s)@.insert(k),
{
    s.insert(k);
}

/// `FxHashSet::contains`: whether the set holds the key.
#[verifier::external_body]
pub(crate) fn set_contains<K: Eq + Hash>(s: &FxHashSet<K>, k: &K) -> (r: bool)
    ensures
        obeys_key_model::<K>() ==> r == s@.contains(*k),
{
    s.contains(k)
}

} // verus!

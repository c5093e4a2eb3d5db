//! The hash maps behind the graph store: std's `HashMap` driven by the FNV-1a
//! hasher of the `fnv` crate.
//!
//! `FnvHasher::default()` always starts from the same offset basis and folds
//! bytes in deterministically, so a map built on it finds a key again whenever
//! the key type hashes and compares by value. The contracts of the four map
//! operations below are not proved: they state what std documents of
//! `HashMap` for such a hasher and such keys, with the view of the map as the
//! mathematical map from its keys to its values.

use core::hash::Hash;
use fnv::FnvHashMap;
use vstd::prelude::*;
use vstd::std_specs::hash::obeys_key_model;

verus! {

/// `fnv::FnvHasher`, the state of one FNV-1a hash computation.
#[verifier::external_type_specification]
#[verifier::external_body]
pub struct ExFnvHasher(fnv::FnvHasher);

/// `core::hash::BuildHasherDefault`, which builds hashers with `Default::default`.
#[verifier::external_type_specification]
#[verifier::external_body]
#[verifier::reject_recursive_types(H)]
pub struct ExBuildHasherDefault<H>(core::hash::BuildHasherDefault<H>);

/// `HashMap::contains_key` on an FNV map: whether the map has an entry for `key`.
#[verifier::external_body]
pub(crate) fn map_contains<K: Eq + Hash, V>(m: &FnvHashMap<K, V>, key: &K) -> (found: bool)
    requires
        obeys_key_model::<K>(),
    ensures
        found == m@.contains_key(*key),
{
    m.contains_key(key)
}

/// `HashMap::get` on an FNV map: the value stored under `key`, if there is one.
#[verifier::external_body]
pub(crate) fn map_get<'a, K: Eq + Hash, V>(m: &'a FnvHashMap<K, V>, key: &K) -> (value: Option<&'a V>)
    requires
        obeys_key_model::<K>(),
    ensures
        match value {
            Some(v) => m@.contains_key(*key) && *v == m@[*key],
            None => !m@.contains_key(*key),
        },
{
    m.get(key)
}

/// `HashMap::insert` on an FNV map: afterwards `key` maps to `value`, every
/// other entry is as before, and the value that `key` had before is returned.
#[verifier::external_body]
pub(crate) fn map_insert<K: Eq + Hash, V>(m: &mut FnvHashMap<K, V>, key: K, value: V) -> (previous: Option<V>)
    requires
        obeys_key_model::<K>(),
    ensures
        final(m)@ == old(m)@.insert(key, value),
        match previous {
            Some(v) => old(m)@.contains_key(key) && v == old(m)@[key],
            None => !old(m)@.contains_key(key),
        },
{
    m.insert(key, value)
}

/// `HashMap::remove` on an FNV map: afterwards `key` has no entry, every other
/// entry is as before, and the value that `key` had is returned.
#[verifier::external_body]
pub(crate) fn map_remove<K: Eq + Hash, V>(m: &mut FnvHashMap<K, V>, key: &K) -> (previous: Option<V>)
    requires
        obeys_key_model::<K>(),
    ensures
        final(m)@ == old(m)@.remove(*key),
        match previous {
            Some(v) => old(m)@.contains_key(*key) && v == old(m)@[*key],
            None => !old(m)@.contains_key(*key),
        },
{
    m.remove(key)
}

} // verus!

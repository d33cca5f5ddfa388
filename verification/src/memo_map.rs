//! The memo's index: ahash's hash map from fingerprints to group indices.
//!
//! The map type is opaque to the verifier; its contents are named by
//! `memo_entries`, and every access goes through the wrappers below.

use vstd::prelude::*;

verus! {

/// ahash's hash map, a std HashMap with a faster hasher behind it.
#[verifier::external_type_specification]
#[verifier::external_body]
#[verifier::reject_recursive_types(K)]
#[verifier::reject_recursive_types(V)]
#[verifier::reject_recursive_types(S)]
pub struct ExAHashMap<K, V, S>(ahash::AHashMap<K, V, S>);

/// ahash's hasher factory, the map's default hasher.
#[verifier::external_type_specification]
#[verifier::external_body]
pub struct ExAHashRandomState(ahash::RandomState);

/// The entries a memo index holds, as a map from fingerprints to group
/// indices.
pub uninterp spec fn memo_entries(m: ahash::AHashMap<u64, usize>) -> Map<u64, usize>;

/// Relies on ahash::AHashMap::new: a freshly created map holds no entries.
#[verifier::external_body]
pub(crate) fn memo_new() -> (r: ahash::AHashMap<u64, usize>)
    ensures
        memo_entries(r) =~= Map::empty(),
{
    ahash::AHashMap::new()
}

/// Relies on ahash::AHashMap::get: returns the value bound to the key, if
/// any.
#[verifier::external_body]
pub(crate) fn memo_get(m: &ahash::AHashMap<u64, usize>, k: u64) -> (r: Option<usize>)
    ensures
        r == if memo_entries(*m).dom().contains(k) {
            Some(memo_entries(*m)[k])
        } else {
            None::<usize>
        },
{
    m.get(&k).copied()
}

/// Relies on ahash::AHashMap::insert, which hands the pair to the std
/// HashMap behind it: binds the key to the value and leaves every other
/// entry alone.
#[verifier::external_body]
pub(crate) fn memo_insert(m: &mut ahash::AHashMap<u64, usize>, k: u64, v: usize)
    ensures
        memo_entries(*final(m)) == memo_entries(*old(m)).insert(k, v),
{
    m.insert(k, v);
}

} // verus!

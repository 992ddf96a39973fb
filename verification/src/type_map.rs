//! Maps from type identities to indices, held in `rustc_hash::FxHashMap`.

use vstd::prelude::*;

use rustc_hash::FxHashMap;

verus! {

/// `rustc_hash::FxBuildHasher` is carried opaquely: it only builds the map's hashers.
#[verifier::external_type_specification]
#[verifier::external_body]
pub struct ExFxBuildHasher(rustc_hash::FxBuildHasher);

/// A map from type identities to indices.
pub type TypeIndexMap = FxHashMap<std::any::TypeId, usize>;

/// The entries of a map from type identities to indices.
pub uninterp spec fn type_entries(m: TypeIndexMap) -> Map<std::any::TypeId, usize>;

/// The map without entries.
pub open spec fn no_entries() -> Map<std::any::TypeId, usize> {
    Map::empty()
}

/// Calls `FxHashMap::default()`, which creates an empty map.
#[verifier::external_body]
pub(crate) fn type_map_new() -> (r: TypeIndexMap)
    ensures
        type_entries(r) == no_entries(),
{
    FxHashMap::default()
}

/// Calls `HashMap::get` on the map and copies the value out: the value stored for `k`, if any.
#[verifier::external_body]
pub(crate) fn type_map_get(m: &TypeIndexMap, k: &std::any::TypeId) -> (r: Option<usize>)
    ensures
        r == (if type_entries(*m).contains_key(*k) {
            Some(type_entries(*m)[*k])
        } else {
            None
        }),
{
    m.get(k).copied()
}

/// Calls `HashMap::insert` on the map: afterwards `k` maps to `v` and the other entries are
/// unchanged. The previous value, which `insert` returns, is dropped.
#[verifier::external_body]
pub(crate) fn type_map_insert(m: &mut TypeIndexMap, k: std::any::TypeId, v: usize)
    ensures
        type_entries(*final(m)) == type_entries(*old(m)).insert(k, v),
{
    m.insert(k, v);
}

/// A map from entity keys (the bits of an entity handle) to table rows.
pub type EntityRowMap = FxHashMap<u64, usize>;

/// The entries of a map from entity keys to rows.
pub uninterp spec fn row_entries(m: EntityRowMap) -> Map<u64, usize>;

/// The map from entity keys without entries.
pub open spec fn no_rows() -> Map<u64, usize> {
    Map::empty()
}

/// Calls `FxHashMap::default()`, which creates an empty map.
#[verifier::external_body]
pub(crate) fn row_map_new() -> (r: EntityRowMap)
    ensures
        row_entries(r) == no_rows(),
{
    FxHashMap::default()
}

/// Calls `HashMap::insert` on the map: afterwards `k` maps to `v` and the other entries are
/// unchanged. The previous value, which `insert` returns, is dropped.
#[verifier::external_body]
pub(crate) fn row_map_insert(m: &mut EntityRowMap, k: u64, v: usize)
    ensures
        row_entries(*final(m)) == row_entries(*old(m)).insert(k, v),
{
    m.insert(k, v);
}

/// Calls `HashMap::remove` on the map: the entry for `k` leaves the map and its value, if there
/// was one, is returned; the other entries are unchanged.
#[verifier::external_body]
pub(crate) fn row_map_remove(m: &mut EntityRowMap, k: &u64) -> (r: Option<usize>)
    ensures
        row_entries(*final(m)) == row_entries(*old(m)).remove(*k),
        r == (if row_entries(*old(m)).contains_key(*k) {
            Some(row_entries(*old(m))[*k])
        } else {
            None
        }),
{
    m.remove(k)
}

} // verus!

use vstd::prelude::*;

use crate::path::GridPoint;
use slotmap::{DefaultKey, Key, KeyData, SlotMap};

verus! {

/// What a tree keeps at an address: a mark that the address is subdivided,
/// or the one point held there with the handle that owns it.
#[derive(Clone, Copy, Debug, PartialEq, Eq, Structural)]
pub enum QuadtreeEntry {
    Branch,
    Leaf { point: GridPoint, handle: u64 },
}

/// The map from raw address to entry, held in a hashbrown map.
#[verifier::external_body]
pub struct SpatialMap {
    map: hashbrown::HashMap<u32, QuadtreeEntry>,
}

/// The entries that a spatial map holds.
pub uninterp spec fn spatial_entries(m: SpatialMap) -> Map<u32, QuadtreeEntry>;

/// Relies on hashbrown::HashMap::new: a new map is empty.
#[verifier::external_body]
pub(crate) fn spatial_new() -> (r: SpatialMap)
    ensures
        spatial_entries(r).dom() == Set::<u32>::empty(),
{
    SpatialMap { map: hashbrown::HashMap::new() }
}

/// Relies on hashbrown::HashMap::get: the entry under `k`, if any.
#[verifier::external_body]
pub(crate) fn spatial_get(m: &SpatialMap, k: u32) -> (r: Option<QuadtreeEntry>)
    ensures
        spatial_entries(*m).contains_key(k) ==> r == Some(spatial_entries(*m)[k]),
        !spatial_entries(*m).contains_key(k) ==> r is None,
{
    m.map.get(&k).copied()
}

/// Relies on hashbrown::HashMap::insert: `k` maps to `e` afterwards, and
/// nothing else changes.
#[verifier::external_body]
pub(crate) fn spatial_insert(m: &mut SpatialMap, k: u32, e: QuadtreeEntry)
    ensures
        spatial_entries(*final(m)) == spatial_entries(*old(m)).insert(k, e),
{
    m.map.insert(k, e);
}

/// Relies on hashbrown::HashMap::remove: `k` is gone afterwards, and its
/// entry, if any, is returned.
#[verifier::external_body]
pub(crate) fn spatial_remove(m: &mut SpatialMap, k: u32) -> (r: Option<QuadtreeEntry>)
    ensures
        spatial_entries(*final(m)) == spatial_entries(*old(m)).remove(k),
        spatial_entries(*old(m)).contains_key(k) ==> r == Some(spatial_entries(*old(m))[k]),
        !spatial_entries(*old(m)).contains_key(k) ==> r is None,
{
    m.map.remove(&k)
}

/// Relies on hashbrown::HashMap::keys: every key once, in some order.
#[verifier::external_body]
pub(crate) fn spatial_keys(m: &SpatialMap) -> (r: Vec<u32>)
    ensures
        r@.no_duplicates(),
        forall|k: u32| r@.contains(k) <==> spatial_entries(*m).contains_key(k),
{
    m.map.keys().copied().collect()
}

/// The table from handle to raw address, held in a slotmap slot map.
#[verifier::external_body]
pub struct HandleMap {
    map: SlotMap<DefaultKey, u32>,
}

/// The live handles of a slot map, each by the 64-bit form of its key
/// (`KeyData::as_ffi`), with the raw address it points to.
pub uninterp spec fn handle_entries(m: HandleMap) -> Map<u64, u32>;

/// The 64-bit form of a key: its version, which is odd while the key is
/// live, in the high half and its slot in the low half.
pub open spec fn key_form(k: u64) -> bool {
    (k >> 32) & 1 == 1
}

/// Relies on slotmap::SlotMap::new: a new slot map is empty.
#[verifier::external_body]
pub(crate) fn handles_new() -> (r: HandleMap)
    ensures
        handle_entries(r).dom() == Set::<u64>::empty(),
{
    HandleMap { map: SlotMap::new() }
}

/// Relies on slotmap::SlotMap::insert: the new key is not among the live
/// ones, and maps to `a` afterwards. The map panics only when full, which
/// `requires` rules out.
#[verifier::external_body]
pub(crate) fn handles_insert(m: &mut HandleMap, a: u32) -> (r: u64)
    requires
        handle_entries(*old(m)).dom().finite(),
        handle_entries(*old(m)).len() < 0xffff_fffe,
    ensures
        !handle_entries(*old(m)).contains_key(r),
        key_form(r),
        handle_entries(*final(m)) == handle_entries(*old(m)).insert(r, a),
{
    m.map.insert(a).data().as_ffi()
}

/// Relies on slotmap::SlotMap::get with `KeyData::from_ffi`: the address
/// that the live key `k` points to, if it is live.
#[verifier::external_body]
pub(crate) fn handles_get(m: &HandleMap, k: u64) -> (r: Option<u32>)
    requires
        key_form(k),
    ensures
        handle_entries(*m).contains_key(k) ==> r == Some(handle_entries(*m)[k]),
        !handle_entries(*m).contains_key(k) ==> r is None,
{
    m.map.get(DefaultKey::from(KeyData::from_ffi(k))).copied()
}

/// Relies on slotmap::SlotMap::index_mut with `KeyData::from_ffi`: the live
/// key `k` points to `a` afterwards.
#[verifier::external_body]
pub(crate) fn handles_set(m: &mut HandleMap, k: u64, a: u32)
    requires
        key_form(k),
        handle_entries(*old(m)).contains_key(k),
    ensures
        handle_entries(*final(m)) == handle_entries(*old(m)).insert(k, a),
{
    m.map[DefaultKey::from(KeyData::from_ffi(k))] = a;
}

/// Relies on slotmap::SlotMap::remove with `KeyData::from_ffi`: `k` is no
/// longer live afterwards, and its address, if it was, is returned.
#[verifier::external_body]
pub(crate) fn handles_remove(m: &mut HandleMap, k: u64) -> (r: Option<u32>)
    requires
        key_form(k),
    ensures
        handle_entries(*final(m)) == handle_entries(*old(m)).remove(k),
        handle_entries(*old(m)).contains_key(k) ==> r == Some(handle_entries(*old(m))[k]),
        !handle_entries(*old(m)).contains_key(k) ==> r is None,
{
    m.map.remove(DefaultKey::from(KeyData::from_ffi(k)))
}

/// Relies on slotmap::SlotMap::keys: every live key once, in slot order.
#[verifier::external_body]
pub(crate) fn handles_keys(m: &HandleMap) -> (r: Vec<u64>)
    ensures
        r@.no_duplicates(),
        forall|k: u64| r@.contains(k) <==> handle_entries(*m).contains_key(k),
{
    m.map.keys().map(|k| k.data().as_ffi()).collect()
}

} // verus!

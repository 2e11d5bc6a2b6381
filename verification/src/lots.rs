//! The parcel store: lots held in a `slotmap::SlotMap` with generational
//! keys, seen by the proofs as a map from the key's 64-bit form to the lot.
//!
//! A key's 64-bit form is `(version << 32) | index` as `KeyData::as_ffi`
//! produces it; occupied versions are odd, so every live key has an odd
//! upper half, and a stale key can never alias a live one.

use vstd::prelude::*;
use slotmap::Key;
use crate::geometry::Polygon;

verus! {

/// Classification of a parcel; placement always creates `Residential`.
#[derive(Clone, Copy, PartialEq, Eq, Structural, Debug)]
pub enum LotKind {
    Unassigned,
    Residential,
    Commercial,
}

/// A parcel: a shape owned by one road.
pub struct Lot {
    /// Index of the owning road.
    pub parent: usize,
    pub kind: LotKind,
    /// The parcel's quadrilateral, corners in walk order.
    pub shape: Polygon,
    /// Edge length the parcel was requested with.
    pub size: i64,
}

/// The store the crate keeps its lots in: a `slotmap::SlotMap` with
/// generational keys. Verus refuses to declare the slotmap type itself (its
/// `Key` trait bound cannot be declared here), so the store is held opaque
/// and everything the proofs know of it comes from the contracts below.
#[verifier::external_body]
pub struct LotStore {
    inner: slotmap::SlotMap<slotmap::DefaultKey, Lot>,
}

/// The contents of the lot store: the 64-bit form of each live key, mapped
/// to the lot stored under it.
pub uninterp spec fn lot_table(m: LotStore) -> Map<u64, Lot>;

/// The 64-bit form every live key has: an odd version in the upper half.
pub open spec fn lot_key_wf(k: u64) -> bool {
    (k >> 32u64) & 1u64 == 1u64
}

/// Relies on slotmap::SlotMap::new: the new map is empty.
#[verifier::external_body]
pub(crate) fn lots_new() -> (r: LotStore)
    ensures
        lot_table(r) =~= Map::empty(),
{
    LotStore { inner: slotmap::SlotMap::new() }
}

/// Relies on slotmap::SlotMap::insert: the value is stored under a fresh
/// key (one whose 64-bit form is not live), occupied versions are odd, and
/// nothing else changes. The bound on the length keeps the call away from
/// slotmap's capacity panic.
#[verifier::external_body]
pub(crate) fn lots_insert(m: &mut LotStore, v: Lot) -> (k: u64)
    requires
        lot_table(*old(m)).dom().finite(),
        lot_table(*old(m)).dom().len() < 0x40000000,
    ensures
        !lot_table(*old(m)).dom().contains(k),
        lot_table(*final(m)) == lot_table(*old(m)).insert(k, v),
        lot_table(*final(m)).dom().finite(),
        lot_key_wf(k),
{
    m.inner.insert(v).data().as_ffi()
}

/// Relies on slotmap::SlotMap::get: returns the value stored under the key,
/// or `None` when the key is not live.
#[verifier::external_body]
pub(crate) fn lots_get(m: &LotStore, k: u64) -> (r: Option<&Lot>)
    requires
        lot_key_wf(k),
    ensures
        match r {
            Some(v) => lot_table(*m).dom().contains(k) && *v == lot_table(*m)[k],
            None => !lot_table(*m).dom().contains(k),
        },
{
    m.inner.get(slotmap::KeyData::from_ffi(k).into())
}

/// Relies on slotmap::SlotMap::remove: removes and returns the value stored
/// under the key, or does nothing when the key is not live.
#[verifier::external_body]
pub(crate) fn lots_remove(m: &mut LotStore, k: u64) -> (r: Option<Lot>)
    requires
        lot_key_wf(k),
    ensures
        lot_table(*final(m)) == lot_table(*old(m)).remove(k),
        match r {
            Some(v) => lot_table(*old(m)).dom().contains(k) && v == lot_table(*old(m))[k],
            None => !lot_table(*old(m)).dom().contains(k),
        },
{
    m.inner.remove(slotmap::KeyData::from_ffi(k).into())
}

/// Relies on slotmap::SlotMap::len: the number of live keys.
#[verifier::external_body]
pub(crate) fn lots_len(m: &LotStore) -> (r: usize)
    ensures
        r == lot_table(*m).dom().len(),
{
    m.inner.len()
}

/// Relies on slotmap::SlotMap::keys: every live key, each once.
#[verifier::external_body]
pub(crate) fn lots_keys(m: &LotStore) -> (r: Vec<u64>)
    ensures
        r@.no_duplicates(),
        forall|k: u64| #[trigger] r@.contains(k) <==> lot_table(*m).dom().contains(k),
{
    m.inner.keys().map(|k| k.data().as_ffi()).collect()
}

} // verus!

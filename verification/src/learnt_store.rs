//! The store of learned clauses: a slot map, so that clause handles held by
//! trail entries and watch lists stay valid while other learned clauses are
//! dropped by the retention policy.
//!
//! The slot map itself comes from the `slotmap` crate.  Verus cannot see
//! through its generic bounds, so the map sits in a private field of an
//! opaque struct, and everything the solver knows about it is stated on the
//! wrappers below, over `store_map` (its live contents) and `store_slots`
//! (the number of slots its table has ever grown to, which is what bounds
//! insertion).

use vstd::prelude::*;

use crate::stored_clause::StoredClause;

use slotmap::DefaultKey;
use slotmap::SlotMap;

verus! {

#[verifier::external_type_specification]
#[verifier::external_body]
pub struct ExDefaultKey(DefaultKey);

/// The learned-clause store.  Opaque to Verus: its contents are reached only
/// through the trusted wrappers below.
#[verifier::external_body]
pub struct LearntStore {
    map: SlotMap<DefaultKey, StoredClause>,
}

/// The live contents of the store: which clause each live key designates.
pub uninterp spec fn store_map(m: LearntStore) -> Map<DefaultKey, StoredClause>;

/// How many slots the store's table holds.  The table starts with one
/// sentinel slot, grows by at most one slot per insertion, and never shrinks;
/// insertion panics only when the table is full at `u32::MAX` slots.
pub uninterp spec fn store_slots(m: LearntStore) -> nat;

/// Relies on slotmap::SlotMap::new: an empty map whose table holds only the
/// sentinel slot.
#[verifier::external_body]
pub(crate) fn learnt_store_new() -> (m: LearntStore)
    ensures
        store_map(m).dom() =~= Set::empty(),
        store_slots(m) == 1,
{
    LearntStore { map: SlotMap::new() }
}

/// Relies on slotmap::SlotMap::insert: stores the value under a fresh key,
/// reusing a free slot or growing the table by one slot.  It panics only when
/// the table is full, which the requires keeps out of reach.
#[verifier::external_body]
pub(crate) fn learnt_store_insert(m: &mut LearntStore, v: StoredClause) -> (k: DefaultKey)
    requires
        store_slots(*old(m)) < 0xFFFF_FFFF,
    ensures
        !store_map(*old(m)).dom().contains(k),
        store_map(*final(m)) == store_map(*old(m)).insert(k, v),
        store_slots(*final(m)) <= store_slots(*old(m)) + 1,
{
    m.map.insert(v)
}

/// Relies on slotmap::SlotMap::get: `Some` of the stored value exactly at
/// live keys.
#[verifier::external_body]
pub(crate) fn learnt_store_get(m: &LearntStore, k: DefaultKey) -> (r: Option<&StoredClause>)
    ensures
        match r {
            Some(c) => store_map(*m).dom().contains(k) && *c == store_map(*m)[k],
            None => !store_map(*m).dom().contains(k),
        },
{
    m.map.get(k)
}

/// Relies on slotmap::SlotMap::remove: takes the entry at a live key out and
/// frees its slot; a dead key leaves the map unchanged.
#[verifier::external_body]
pub(crate) fn learnt_store_remove(m: &mut LearntStore, k: DefaultKey) -> (r: Option<StoredClause>)
    ensures
        store_map(*final(m)) == store_map(*old(m)).remove(k),
        store_slots(*final(m)) == store_slots(*old(m)),
        match r {
            Some(c) => store_map(*old(m)).dom().contains(k) && c == store_map(*old(m))[k],
            None => !store_map(*old(m)).dom().contains(k),
        },
{
    m.map.remove(k)
}

/// Relies on slotmap::SlotMap::get_mut: `Some` exactly at live keys; writing
/// through it replaces the stored value in place.
#[verifier::external_body]
pub(crate) fn learnt_store_replace(m: &mut LearntStore, k: DefaultKey, v: StoredClause)
    requires
        store_map(*old(m)).dom().contains(k),
    ensures
        store_map(*final(m)) == store_map(*old(m)).insert(k, v),
        store_slots(*final(m)) == store_slots(*old(m)),
{
    *m.map.get_mut(k).unwrap() = v;
}

/// Relies on slotmap::SlotMap::keys: every live key exactly once.
#[verifier::external_body]
pub(crate) fn learnt_store_keys(m: &LearntStore) -> (r: Vec<DefaultKey>)
    ensures
        r@.no_duplicates(),
        forall|k: DefaultKey| #[trigger] r@.contains(k) <==> store_map(*m).dom().contains(k),
{
    m.map.keys().collect()
}

} // verus!

//! The trusted boundary to the stable-memory crate.
//!
//! Everything the store keeps lives in two regions of one backing memory:
//! slot 0 holds the eight-byte id counter, slot 1 the id-to-bytes map.
//! Verus refuses declarations of the outside container types themselves
//! (their generic bounds name outside traits), so each is held in a private
//! field of an opaque struct here. The items in this module state, over
//! [`counter_value`] and [`map_entries`], what each outside call does;
//! nothing below this boundary is verified.
//!
//! Exhaustion of the backing address space, and a backing whose header
//! bytes name a layout this version of the outside crate does not read,
//! are fatal inside that crate and therefore not represented in these
//! contracts.

use vstd::prelude::*;
use ic_stable_structures::memory_manager::{MemoryId, MemoryManager, VirtualMemory};
use ic_stable_structures::{DefaultMemoryImpl, StableBTreeMap, StableCell};
use crate::model::{entries_sorted, spec_entries_insert, spec_entries_lookup};

verus! {

#[verifier::external_type_specification]
#[verifier::external_body]
#[verifier::reject_recursive_types(T)]
pub struct ExRefCell<T: ?Sized>(core::cell::RefCell<T>);

/// Partitions one backing memory into independently growable virtual
/// regions addressed by stable small-integer indices.
#[verifier::external_body]
pub struct SlotManager {
    mm: MemoryManager<DefaultMemoryImpl>,
}

/// One virtual region of the backing memory.
#[verifier::external_body]
pub struct SlotMemory {
    vm: VirtualMemory<DefaultMemoryImpl>,
}

/// An eight-byte value persisted in one region.
#[verifier::external_body]
pub struct CounterCell {
    cell: StableCell<u64, VirtualMemory<DefaultMemoryImpl>>,
}

/// A persistent ordered map from `u64` ids to byte strings, kept in one
/// region.
#[verifier::external_body]
pub struct RecordMap {
    map: StableBTreeMap<u64, Vec<u8>, VirtualMemory<DefaultMemoryImpl>>,
}

/// The value the counter cell holds.
pub uninterp spec fn counter_value(c: &CounterCell) -> u64;

/// The map's entries, as `(id, bytes)` pairs in ascending id order.
pub uninterp spec fn map_entries(m: &RecordMap) -> Seq<(u64, Seq<u8>)>;

/// Relies on `MemoryManager::init`: the regions it hands out do not
/// overlap, and reconnecting to a previously managed memory finds the
/// prior regions intact.
#[verifier::external_body]
pub(crate) fn slots_init(memory: DefaultMemoryImpl) -> (mm: SlotManager) {
    SlotManager { mm: MemoryManager::init(memory) }
}

/// Relies on `MemoryManager::get` and `MemoryId::new`: returns the virtual
/// region with the given index; the same index always leads to the same
/// region. `MemoryId::new` refuses only the reserved index 255.
#[verifier::external_body]
pub(crate) fn slots_get(mgr: &SlotManager, slot: u8) -> (m: SlotMemory)
    requires
        slot < 255,
{
    SlotMemory { vm: mgr.mm.get(MemoryId::new(slot)) }
}

/// Relies on `Cell::init`: connects to the value persisted in this region,
/// or persists the default, zero, where the region is empty.
#[verifier::external_body]
pub(crate) fn counter_init(memory: SlotMemory) -> (c: CounterCell) {
    CounterCell { cell: StableCell::init(memory.vm, 0) }
}

/// Relies on `Cell::get`: returns the held value.
#[verifier::external_body]
pub(crate) fn counter_get(c: &CounterCell) -> (v: u64)
    ensures
        v == counter_value(c),
{
    *c.cell.get()
}

/// Relies on `Cell::set`: persists the new value and returns the previous
/// one.
#[verifier::external_body]
pub(crate) fn counter_set(c: &mut CounterCell, v: u64) -> (prev: u64)
    ensures
        counter_value(final(c)) == v,
        prev == counter_value(old(c)),
{
    c.cell.set(v)
}

/// Relies on `BTreeMap::init`: connects to the map persisted in this
/// region, or creates an empty one; a B-tree map's entries are sorted by
/// key, each key held at most once.
#[verifier::external_body]
pub(crate) fn map_init(memory: SlotMemory) -> (m: RecordMap)
    ensures
        entries_sorted(map_entries(&m)),
{
    RecordMap { map: StableBTreeMap::init(memory.vm) }
}

/// Relies on `BTreeMap::insert`: stores the value under the key at its
/// ordered position, replacing and returning what the key held before.
#[verifier::external_body]
pub(crate) fn map_insert(m: &mut RecordMap, k: u64, v: Vec<u8>) -> (prev: Option<Vec<u8>>)
    ensures
        map_entries(final(m)) == spec_entries_insert(map_entries(old(m)), k, v@),
        prev.deep_view() == spec_entries_lookup(map_entries(old(m)), k),
{
    m.map.insert(k, v)
}

/// Relies on `BTreeMap::get`: returns the value stored under the key, if
/// any.
#[verifier::external_body]
pub(crate) fn map_get(m: &RecordMap, k: u64) -> (r: Option<Vec<u8>>)
    ensures
        r.deep_view() == spec_entries_lookup(map_entries(m), k),
{
    m.map.get(&k)
}

/// Relies on `BTreeMap::iter`: yields every entry, in ascending key order.
#[verifier::external_body]
pub(crate) fn map_entries_vec(m: &RecordMap) -> (r: Vec<(u64, Vec<u8>)>)
    ensures
        r.deep_view() == map_entries(m),
{
    m.map.iter().map(|e| e.into_pair()).collect()
}

} // verus!

//! The slot maps a graph keeps its nodes, values and per-slot data in.
//!
//! Keys are handed around in their `as_ffi` form: the slot index in the low
//! 32 bits and the slot version above. A slot map gives out keys with odd
//! versions and at most one live key per slot; a secondary map keeps at
//! most one entry per slot as well.
use super::state::NodeSlots;
use super::types::EndpointType;
use super::{NodeKey, ValueKey, MAX_CONNECTIONS_PER_OUTPUT, MAX_EVENTS};
use arrayvec::ArrayVec;
use slotmap::{DefaultKey, Key, KeyData, SecondaryMap, SlotMap};
use vstd::prelude::*;

verus! {

/// The slot a key names.
pub open spec fn slot_index(k: u64) -> int {
    (k % 0x1_0000_0000) as int
}

/// The version a key carries.
pub open spec fn key_version(k: u64) -> int {
    (k / 0x1_0000_0000) as int
}

/// Keys a slot map gives out carry an odd version and name a slot below
/// the last index, which is reserved for the null key.
pub open spec fn is_key(k: u64) -> bool {
    key_version(k) % 2 == 1 && slot_index(k) < 0xFFFF_FFFF
}

/// No key of `m` other than `k` names the slot of `k`.
pub open spec fn fits<V>(m: Map<u64, V>, k: u64) -> bool {
    forall|a: u64| #[trigger] m.contains_key(a) && slot_index(a) == slot_index(k) ==> a == k
}

/// Whether `k` has the form of a slot map key.
pub fn key_form(k: u64) -> (r: bool)
    ensures
        r == is_key(k),
{
    (k / 0x1_0000_0000) % 2 == 1 && k % 0x1_0000_0000 < 0xFFFF_FFFF
}

/// The slot map of slot values (binary32 bit patterns).
#[verifier::external_body]
pub struct ValueTable {
    table: SlotMap<DefaultKey, u32>,
}

/// The values a value table holds, by key.
pub uninterp spec fn value_entries(t: ValueTable) -> Map<u64, u32>;

/// Calls `SlotMap::with_key`, which makes an empty slot map.
#[verifier::external_body]
pub(crate) fn new_value_table() -> (t: ValueTable)
    ensures
        value_entries(t).dom() == Set::<u64>::empty(),
{
    ValueTable { table: SlotMap::with_key() }
}

/// Calls `SlotMap::len`, the number of values held.
#[verifier::external_body]
pub(crate) fn value_count(t: &ValueTable) -> (n: usize)
    ensures
        n == value_entries(*t).dom().len(),
{
    t.table.len()
}

/// Calls `SlotMap::insert`, which stores `v` in a free slot (panicking only
/// when every one of the `u32::MAX - 1` slots is taken, which the
/// precondition excludes) and returns its key.
#[verifier::external_body]
pub(crate) fn insert_value(t: &mut ValueTable, v: u32) -> (k: ValueKey)
    requires
        value_entries(*old(t)).dom().finite(),
        value_entries(*old(t)).dom().len() < 0xFFFF_FFFE,
    ensures
        is_key(k),
        forall|a: u64| #[trigger] value_entries(*old(t)).contains_key(a) ==> slot_index(a) != slot_index(k),
        value_entries(*final(t)) == value_entries(*old(t)).insert(k, v),
{
    t.table.insert(v).data().as_ffi()
}

/// Calls `SlotMap::get`.
#[verifier::external_body]
pub(crate) fn get_value(t: &ValueTable, k: ValueKey) -> (r: Option<u32>)
    requires
        is_key(k),
    ensures
        r == value_entries(*t).get(k),
{
    t.table.get(KeyData::from_ffi(k).into()).copied()
}

/// Calls `SlotMap::get_mut` and, when `k` is held, writes `v` through it.
#[verifier::external_body]
pub(crate) fn set_value_at(t: &mut ValueTable, k: ValueKey, v: u32) -> (found: bool)
    requires
        is_key(k),
    ensures
        found == value_entries(*old(t)).contains_key(k),
        value_entries(*final(t)) == (if found {
            value_entries(*old(t)).insert(k, v)
        } else {
            value_entries(*old(t))
        }),
{
    match t.table.get_mut(KeyData::from_ffi(k).into()) {
        Some(x) => {
            *x = v;
            true
        },
        None => false,
    }
}

/// Calls `SlotMap::remove`.
#[verifier::external_body]
pub(crate) fn remove_value(t: &mut ValueTable, k: ValueKey) -> (r: Option<u32>)
    requires
        is_key(k),
    ensures
        r == value_entries(*old(t)).get(k),
        value_entries(*final(t)) == value_entries(*old(t)).remove(k),
{
    t.table.remove(KeyData::from_ffi(k).into())
}

/// The slot map of nodes.
#[verifier::external_body]
pub struct NodeTable {
    table: SlotMap<DefaultKey, NodeSlots>,
}

/// The nodes a node table holds, by key.
pub uninterp spec fn node_entries(t: NodeTable) -> Map<u64, NodeSlots>;

/// Calls `SlotMap::with_key`, which makes an empty slot map.
#[verifier::external_body]
pub(crate) fn new_node_table() -> (t: NodeTable)
    ensures
        node_entries(t).dom() == Set::<u64>::empty(),
{
    NodeTable { table: SlotMap::with_key() }
}

/// Calls `SlotMap::len`, the number of nodes held.
#[verifier::external_body]
pub(crate) fn node_count(t: &NodeTable) -> (n: usize)
    ensures
        n == node_entries(*t).dom().len(),
{
    t.table.len()
}

/// Calls `SlotMap::insert`, which stores `n` in a free slot (panicking only
/// when every one of the `u32::MAX - 1` slots is taken, which the
/// precondition excludes) and returns its key.
#[verifier::external_body]
pub(crate) fn insert_node(t: &mut NodeTable, n: NodeSlots) -> (k: NodeKey)
    requires
        node_entries(*old(t)).dom().finite(),
        node_entries(*old(t)).dom().len() < 0xFFFF_FFFE,
    ensures
        is_key(k),
        forall|a: u64| #[trigger] node_entries(*old(t)).contains_key(a) ==> slot_index(a) != slot_index(k),
        node_entries(*final(t)) == node_entries(*old(t)).insert(k, n),
{
    t.table.insert(n).data().as_ffi()
}

/// Calls `SlotMap::get`.
#[verifier::external_body]
pub(crate) fn get_node(t: &NodeTable, k: NodeKey) -> (r: Option<&NodeSlots>)
    requires
        is_key(k),
    ensures
        match r {
            Some(n) => node_entries(*t).contains_key(k) && *n == node_entries(*t)[k],
            None => !node_entries(*t).contains_key(k),
        },
{
    t.table.get(KeyData::from_ffi(k).into())
}

/// Calls `SlotMap::remove`.
#[verifier::external_body]
pub(crate) fn remove_node_entry(t: &mut NodeTable, k: NodeKey) -> (r: Option<NodeSlots>)
    requires
        is_key(k),
    ensures
        r == node_entries(*old(t)).get(k),
        node_entries(*final(t)) == node_entries(*old(t)).remove(k),
{
    t.table.remove(KeyData::from_ffi(k).into())
}

/// Calls `SlotMap::keys`, collecting each key's `as_ffi` form: every key
/// held, once each.
#[verifier::external_body]
pub(crate) fn node_keys_of(t: &NodeTable) -> (ks: Vec<NodeKey>)
    ensures
        ks@.no_duplicates(),
        forall|k: u64| #[trigger] ks@.contains(k) <==> node_entries(*t).contains_key(k),
{
    t.table.keys().map(|k| k.data().as_ffi()).collect()
}

/// A secondary map from value slots to the node owning them.
#[verifier::external_body]
pub struct OwnerTable {
    table: SecondaryMap<DefaultKey, NodeKey>,
}

/// The owners an owner table holds, by value key.
pub uninterp spec fn owner_entries(t: OwnerTable) -> Map<u64, NodeKey>;

/// Calls `SecondaryMap::new`, which makes an empty map.
#[verifier::external_body]
pub(crate) fn new_owner_table() -> (t: OwnerTable)
    ensures
        owner_entries(t).dom() == Set::<u64>::empty(),
{
    OwnerTable { table: SecondaryMap::new() }
}

/// Calls `SecondaryMap::insert`; with no other key of the same slot held,
/// it stores `n` under `k`.
#[verifier::external_body]
pub(crate) fn insert_owner(t: &mut OwnerTable, k: ValueKey, n: NodeKey)
    requires
        is_key(k),
        fits(owner_entries(*old(t)), k),
    ensures
        owner_entries(*final(t)) == owner_entries(*old(t)).insert(k, n),
{
    t.table.insert(KeyData::from_ffi(k).into(), n);
}

/// Calls `SecondaryMap::get`.
#[verifier::external_body]
pub(crate) fn get_owner(t: &OwnerTable, k: ValueKey) -> (r: Option<NodeKey>)
    requires
        is_key(k),
    ensures
        r == owner_entries(*t).get(k),
{
    t.table.get(KeyData::from_ffi(k).into()).copied()
}

/// Calls `SecondaryMap::remove`.
#[verifier::external_body]
pub(crate) fn remove_owner(t: &mut OwnerTable, k: ValueKey)
    requires
        is_key(k),
    ensures
        owner_entries(*final(t)) == owner_entries(*old(t)).remove(k),
{
    t.table.remove(KeyData::from_ffi(k).into());
}

/// A secondary map from value slots to their recorded kind.
#[verifier::external_body]
pub struct KindTable {
    table: SecondaryMap<DefaultKey, EndpointType>,
}

/// The kinds a kind table holds, by value key.
pub uninterp spec fn kind_entries(t: KindTable) -> Map<u64, EndpointType>;

/// Calls `SecondaryMap::new`, which makes an empty map.
#[verifier::external_body]
pub(crate) fn new_kind_table() -> (t: KindTable)
    ensures
        kind_entries(t).dom() == Set::<u64>::empty(),
{
    KindTable { table: SecondaryMap::new() }
}

/// Calls `SecondaryMap::insert`; with no other key of the same slot held,
/// it stores `kind` under `k`.
#[verifier::external_body]
pub(crate) fn insert_kind(t: &mut KindTable, k: ValueKey, kind: EndpointType)
    requires
        is_key(k),
        fits(kind_entries(*old(t)), k),
    ensures
        kind_entries(*final(t)) == kind_entries(*old(t)).insert(k, kind),
{
    t.table.insert(KeyData::from_ffi(k).into(), kind);
}

/// Calls `SecondaryMap::get`.
#[verifier::external_body]
pub(crate) fn get_kind(t: &KindTable, k: ValueKey) -> (r: Option<&EndpointType>)
    requires
        is_key(k),
    ensures
        match r {
            Some(e) => kind_entries(*t).contains_key(k) && *e == kind_entries(*t)[k],
            None => !kind_entries(*t).contains_key(k),
        },
{
    t.table.get(KeyData::from_ffi(k).into())
}

/// Calls `SecondaryMap::remove`.
#[verifier::external_body]
pub(crate) fn remove_kind(t: &mut KindTable, k: ValueKey)
    requires
        is_key(k),
    ensures
        kind_entries(*final(t)) == kind_entries(*old(t)).remove(k),
{
    t.table.remove(KeyData::from_ffi(k).into());
}

/// A secondary map from output slots to the input slots they drive.
#[verifier::external_body]
pub struct TargetTable {
    table: SecondaryMap<DefaultKey, ArrayVec<ValueKey, MAX_CONNECTIONS_PER_OUTPUT>>,
}

/// The target lists a target table holds, by output key.
pub uninterp spec fn target_entries(t: TargetTable) -> Map<u64, Seq<ValueKey>>;

/// Calls `SecondaryMap::new`, which makes an empty map.
#[verifier::external_body]
pub(crate) fn new_target_table() -> (t: TargetTable)
    ensures
        target_entries(t).dom() == Set::<u64>::empty(),
{
    TargetTable { table: SecondaryMap::new() }
}

/// Calls `SecondaryMap::get` and copies the list found.
#[verifier::external_body]
pub(crate) fn get_targets(t: &TargetTable, k: ValueKey) -> (r: Option<Vec<ValueKey>>)
    requires
        is_key(k),
    ensures
        match r {
            Some(v) => target_entries(*t).contains_key(k) && v@ == target_entries(*t)[k],
            None => !target_entries(*t).contains_key(k),
        },
{
    t.table.get(KeyData::from_ffi(k).into()).map(|list| list.to_vec())
}

/// Calls `SecondaryMap::insert` with `list` as a fixed-capacity list; with
/// no other key of the same slot held, it stores the list under `k`.
#[verifier::external_body]
pub(crate) fn set_targets(t: &mut TargetTable, k: ValueKey, list: Vec<ValueKey>)
    requires
        is_key(k),
        fits(target_entries(*old(t)), k),
        list@.len() <= MAX_CONNECTIONS_PER_OUTPUT,
    ensures
        target_entries(*final(t)) == target_entries(*old(t)).insert(k, list@),
{
    t.table.insert(KeyData::from_ffi(k).into(), list.into_iter().collect());
}

/// Calls `SecondaryMap::remove`.
#[verifier::external_body]
pub(crate) fn remove_targets(t: &mut TargetTable, k: ValueKey)
    requires
        is_key(k),
    ensures
        target_entries(*final(t)) == target_entries(*old(t)).remove(k),
{
    t.table.remove(KeyData::from_ffi(k).into());
}

/// Calls `SecondaryMap::keys`, collecting each key's `as_ffi` form: every
/// key held, once each.
#[verifier::external_body]
pub(crate) fn target_keys(t: &TargetTable) -> (ks: Vec<ValueKey>)
    ensures
        ks@.no_duplicates(),
        forall|k: u64| #[trigger] ks@.contains(k) <==> target_entries(*t).contains_key(k),
{
    t.table.keys().map(|k| k.data().as_ffi()).collect()
}

/// A secondary map from value slots to positions (of their ramps).
#[verifier::external_body]
pub struct IndexTable {
    table: SecondaryMap<DefaultKey, usize>,
}

/// The positions an index table holds, by value key.
pub uninterp spec fn index_entries(t: IndexTable) -> Map<u64, usize>;

/// Calls `SecondaryMap::new`, which makes an empty map.
#[verifier::external_body]
pub(crate) fn new_index_table() -> (t: IndexTable)
    ensures
        index_entries(t).dom() == Set::<u64>::empty(),
{
    IndexTable { table: SecondaryMap::new() }
}

/// Calls `SecondaryMap::insert`; with no other key of the same slot held,
/// it stores `i` under `k`.
#[verifier::external_body]
pub(crate) fn insert_index(t: &mut IndexTable, k: ValueKey, i: usize)
    requires
        is_key(k),
        fits(index_entries(*old(t)), k),
    ensures
        index_entries(*final(t)) == index_entries(*old(t)).insert(k, i),
{
    t.table.insert(KeyData::from_ffi(k).into(), i);
}

/// Calls `SecondaryMap::get`.
#[verifier::external_body]
pub(crate) fn get_index(t: &IndexTable, k: ValueKey) -> (r: Option<usize>)
    requires
        is_key(k),
    ensures
        r == index_entries(*t).get(k),
{
    t.table.get(KeyData::from_ffi(k).into()).copied()
}

/// Calls `SecondaryMap::remove`.
#[verifier::external_body]
pub(crate) fn remove_index(t: &mut IndexTable, k: ValueKey)
    requires
        is_key(k),
    ensures
        index_entries(*final(t)) == index_entries(*old(t)).remove(k),
{
    t.table.remove(KeyData::from_ffi(k).into());
}

/// A secondary map from event slots to the events queued on them, each
/// queue a fixed-capacity list.
#[verifier::external_body]
pub struct EventTable {
    table: SecondaryMap<DefaultKey, ArrayVec<u64, MAX_EVENTS>>,
}

/// The event queues an event table holds, by slot key.
pub uninterp spec fn event_entries(t: EventTable) -> Map<u64, Seq<u64>>;

/// Calls `SecondaryMap::new`, which makes an empty map.
#[verifier::external_body]
pub(crate) fn new_event_table() -> (t: EventTable)
    ensures
        event_entries(t).dom() == Set::<u64>::empty(),
{
    EventTable { table: SecondaryMap::new() }
}

/// Calls `SecondaryMap::get` and copies the queue found.
#[verifier::external_body]
pub(crate) fn get_events(t: &EventTable, k: ValueKey) -> (r: Option<Vec<u64>>)
    requires
        is_key(k),
    ensures
        match r {
            Some(v) => event_entries(*t).contains_key(k) && v@ == event_entries(*t)[k],
            None => !event_entries(*t).contains_key(k),
        },
{
    t.table.get(KeyData::from_ffi(k).into()).map(|q| q.to_vec())
}

/// Calls `SecondaryMap::insert` with `queue` as a fixed-capacity list; with
/// no other key of the same slot held, it stores the queue under `k`.
#[verifier::external_body]
pub(crate) fn set_events(t: &mut EventTable, k: ValueKey, queue: Vec<u64>)
    requires
        is_key(k),
        fits(event_entries(*old(t)), k),
        queue@.len() <= MAX_EVENTS,
    ensures
        event_entries(*final(t)) == event_entries(*old(t)).insert(k, queue@),
{
    t.table.insert(KeyData::from_ffi(k).into(), queue.into_iter().collect());
}

/// Calls `SecondaryMap::remove`.
#[verifier::external_body]
pub(crate) fn remove_events(t: &mut EventTable, k: ValueKey)
    requires
        is_key(k),
    ensures
        event_entries(*final(t)) == event_entries(*old(t)).remove(k),
{
    t.table.remove(KeyData::from_ffi(k).into());
}

} // verus!

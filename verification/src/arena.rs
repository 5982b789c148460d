//! Trusted access to `thunderdome::Arena`, the generational arena that
//! stores the graph's nodes and edges and the pool's worker IDs.
//!
//! An arena is seen through the map from the bits of each occupied index
//! (`Index::to_bits`) to the value stored there.
use crate::ids::{Edge, NodeEntry};
use crate::scheduler::NodeEventSchedulerData;
use thunderdome::{Arena, Index};
use vstd::prelude::*;

verus! {

#[verifier::external_type_specification]
#[verifier::external_body]
#[verifier::reject_recursive_types(T)]
pub struct ExArena<T>(Arena<T>);

/// What a node arena holds: index bits to node entry.
pub uninterp spec fn node_arena_contents(a: Arena<NodeEntry>) -> Map<u64, NodeEntry>;

/// What an edge arena holds: index bits to edge.
pub uninterp spec fn edge_arena_contents(a: Arena<Edge>) -> Map<u64, Edge>;




/// What a worker-ID arena holds: index bits to worker position.
pub uninterp spec fn worker_arena_contents(a: Arena<usize>) -> Map<u64, usize>;

/// What the audio thread's node arena holds: index bits (the node's ID) to
/// the event scheduler's record of that node.
pub uninterp spec fn sched_arena_contents(a: Arena<NodeEventSchedulerData>) -> Map<u64, NodeEventSchedulerData>;

// ---------------------------------------------------------------- nodes

/// Calls `Arena::with_capacity`: a new arena holds nothing.
#[verifier::external_body]
pub(crate) fn node_arena_new(capacity: usize) -> (r: Arena<NodeEntry>)
    ensures
        node_arena_contents(r).is_empty(),
{
    Arena::with_capacity(capacity)
}

/// Calls `Arena::insert`. The value is stored at an index that was not
/// occupied before (a free slot with a new generation, or a new slot);
/// the bits of that index are returned. Panics past `u32::MAX` elements,
/// which `requires` rules out.
#[verifier::external_body]
pub(crate) fn node_arena_insert(a: &mut Arena<NodeEntry>, v: NodeEntry) -> (k: u64)
    requires
        node_arena_contents(*old(a)).dom().len() < u32::MAX,
    ensures
        !node_arena_contents(*old(a)).contains_key(k),
        node_arena_contents(*final(a)) == node_arena_contents(*old(a)).insert(k, v),
{
    a.insert(v).to_bits()
}

/// Calls `Arena::contains` on the index with the given bits; bits that
/// form no index are never contained.
#[verifier::external_body]
pub(crate) fn node_arena_contains(a: &Arena<NodeEntry>, k: u64) -> (r: bool)
    ensures
        r == node_arena_contents(*a).contains_key(k),
{
    match Index::from_bits(k) {
        Some(i) => a.contains(i),
        None => false,
    }
}

/// Calls `Arena::get` on the index with the given bits and copies the
/// value out.
#[verifier::external_body]
pub(crate) fn node_arena_get(a: &Arena<NodeEntry>, k: u64) -> (r: Option<NodeEntry>)
    ensures
        r == (if node_arena_contents(*a).contains_key(k) {
            Some(node_arena_contents(*a)[k])
        } else {
            None
        }),
{
    match Index::from_bits(k) {
        Some(i) => a.get(i).copied(),
        None => None,
    }
}

/// Calls `Arena::get_mut` on an occupied index and overwrites the value.
#[verifier::external_body]
pub(crate) fn node_arena_set(a: &mut Arena<NodeEntry>, k: u64, v: NodeEntry)
    requires
        node_arena_contents(*old(a)).contains_key(k),
    ensures
        node_arena_contents(*final(a)) == node_arena_contents(*old(a)).insert(k, v),
{
    if let Some(i) = Index::from_bits(k) {
        if let Some(slot) = a.get_mut(i) {
            *slot = v;
        }
    }
}

/// Calls `Arena::remove` on the index with the given bits.
#[verifier::external_body]
pub(crate) fn node_arena_remove(a: &mut Arena<NodeEntry>, k: u64) -> (r: Option<NodeEntry>)
    ensures
        r == (if node_arena_contents(*old(a)).contains_key(k) {
            Some(node_arena_contents(*old(a))[k])
        } else {
            None
        }),
        node_arena_contents(*final(a)) == node_arena_contents(*old(a)).remove(k),
{
    match Index::from_bits(k) {
        Some(i) => a.remove(i),
        None => None,
    }
}

/// Calls `Arena::iter` and collects the index bits of every occupied
/// entry. The iteration order is not defined; each occupied index appears
/// once.
#[verifier::external_body]
pub(crate) fn node_arena_keys(a: &Arena<NodeEntry>) -> (r: Vec<u64>)
    ensures
        r@.no_duplicates(),
        r@.to_set() == node_arena_contents(*a).dom(),
{
    a.iter().map(|(i, _)| i.to_bits()).collect()
}

/// Calls `Arena::capacity`, the capacity of the arena's slot vector. Its
/// exact value depends on the allocator; what holds is that every node
/// occupies a slot of its own, and a vector's capacity is never below its
/// length, so it is at least the number of nodes held.
#[verifier::external_body]
pub(crate) fn node_arena_capacity(a: &Arena<NodeEntry>) -> (r: usize)
    ensures
        node_arena_contents(*a).dom().finite() ==> r >= node_arena_contents(*a).dom().len(),
{
    a.capacity()
}

// ---------------------------------------------------------------- edges

/// Calls `Arena::with_capacity`: a new arena holds nothing.
#[verifier::external_body]
pub(crate) fn edge_arena_new(capacity: usize) -> (r: Arena<Edge>)
    ensures
        edge_arena_contents(r).is_empty(),
{
    Arena::with_capacity(capacity)
}

/// Calls `Arena::insert`; see `node_arena_insert`.
#[verifier::external_body]
pub(crate) fn edge_arena_insert(a: &mut Arena<Edge>, v: Edge) -> (k: u64)
    requires
        edge_arena_contents(*old(a)).dom().len() < u32::MAX,
    ensures
        !edge_arena_contents(*old(a)).contains_key(k),
        edge_arena_contents(*final(a)) == edge_arena_contents(*old(a)).insert(k, v),
{
    a.insert(v).to_bits()
}

/// Calls `Arena::get` on the index with the given bits and copies the
/// value out.
#[verifier::external_body]
pub(crate) fn edge_arena_get(a: &Arena<Edge>, k: u64) -> (r: Option<Edge>)
    ensures
        r == (if edge_arena_contents(*a).contains_key(k) {
            Some(edge_arena_contents(*a)[k])
        } else {
            None
        }),
{
    match Index::from_bits(k) {
        Some(i) => a.get(i).copied(),
        None => None,
    }
}

/// Calls `Arena::get_mut` on an occupied index and overwrites the value.
#[verifier::external_body]
pub(crate) fn edge_arena_set(a: &mut Arena<Edge>, k: u64, v: Edge)
    requires
        edge_arena_contents(*old(a)).contains_key(k),
    ensures
        edge_arena_contents(*final(a)) == edge_arena_contents(*old(a)).insert(k, v),
{
    if let Some(i) = Index::from_bits(k) {
        if let Some(slot) = a.get_mut(i) {
            *slot = v;
        }
    }
}

/// Calls `Arena::remove` on the index with the given bits.
#[verifier::external_body]
pub(crate) fn edge_arena_remove(a: &mut Arena<Edge>, k: u64) -> (r: Option<Edge>)
    ensures
        r == (if edge_arena_contents(*old(a)).contains_key(k) {
            Some(edge_arena_contents(*old(a))[k])
        } else {
            None
        }),
        edge_arena_contents(*final(a)) == edge_arena_contents(*old(a)).remove(k),
{
    match Index::from_bits(k) {
        Some(i) => a.remove(i),
        None => None,
    }
}

/// Calls `Arena::iter` and collects the index bits of every occupied
/// entry, in an order that is not defined; each appears once.
#[verifier::external_body]
pub(crate) fn edge_arena_keys(a: &Arena<Edge>) -> (r: Vec<u64>)
    ensures
        r@.no_duplicates(),
        r@.to_set() == edge_arena_contents(*a).dom(),
{
    a.iter().map(|(i, _)| i.to_bits()).collect()
}

// ---------------------------------------------------------------- workers

/// Calls `Arena::with_capacity`: a new arena holds nothing.
#[verifier::external_body]
pub(crate) fn worker_arena_new(capacity: usize) -> (r: Arena<usize>)
    ensures
        worker_arena_contents(r).is_empty(),
{
    Arena::with_capacity(capacity)
}

/// Calls `Arena::insert`; see `node_arena_insert`.
#[verifier::external_body]
pub(crate) fn worker_arena_insert(a: &mut Arena<usize>, v: usize) -> (k: u64)
    requires
        worker_arena_contents(*old(a)).dom().len() < u32::MAX,
    ensures
        !worker_arena_contents(*old(a)).contains_key(k),
        worker_arena_contents(*final(a)) == worker_arena_contents(*old(a)).insert(k, v),
{
    a.insert(v).to_bits()
}

/// Calls `Arena::get` on the index with the given bits and copies the
/// value out.
#[verifier::external_body]
pub(crate) fn worker_arena_get(a: &Arena<usize>, k: u64) -> (r: Option<usize>)
    ensures
        r == (if worker_arena_contents(*a).contains_key(k) {
            Some(worker_arena_contents(*a)[k])
        } else {
            None
        }),
{
    match Index::from_bits(k) {
        Some(i) => a.get(i).copied(),
        None => None,
    }
}

/// Calls `Arena::remove` on the index with the given bits.
#[verifier::external_body]
pub(crate) fn worker_arena_remove(a: &mut Arena<usize>, k: u64) -> (r: Option<usize>)
    ensures
        r == (if worker_arena_contents(*old(a)).contains_key(k) {
            Some(worker_arena_contents(*old(a))[k])
        } else {
            None
        }),
        worker_arena_contents(*final(a)) == worker_arena_contents(*old(a)).remove(k),
{
    match Index::from_bits(k) {
        Some(i) => a.remove(i),
        None => None,
    }
}

/// Calls `Arena::clear`: the arena then holds nothing.
#[verifier::external_body]
pub(crate) fn worker_arena_clear(a: &mut Arena<usize>)
    ensures
        worker_arena_contents(*final(a)).is_empty(),
{
    a.clear()
}

// ---------------------------------------------------------------- audio-thread nodes

/// Calls `Arena::with_capacity`: a new arena holds nothing.
#[verifier::external_body]
pub(crate) fn sched_arena_new(capacity: usize) -> (r: Arena<NodeEventSchedulerData>)
    ensures
        sched_arena_contents(r).is_empty(),
{
    Arena::with_capacity(capacity)
}

/// Calls `Arena::contains` on the index with the given bits; bits that
/// form no index are never contained.
#[verifier::external_body]
pub(crate) fn sched_arena_contains(a: &Arena<NodeEventSchedulerData>, k: u64) -> (r: bool)
    ensures
        r == sched_arena_contents(*a).contains_key(k),
{
    match Index::from_bits(k) {
        Some(i) => a.contains(i),
        None => false,
    }
}

/// Calls `Arena::get` on the index with the given bits.
#[verifier::external_body]
pub(crate) fn sched_arena_get(a: &Arena<NodeEventSchedulerData>, k: u64) -> (r: Option<&NodeEventSchedulerData>)
    ensures
        r is Some == sched_arena_contents(*a).contains_key(k),
        r matches Some(d) ==> *d == sched_arena_contents(*a)[k],
{
    match Index::from_bits(k) {
        Some(i) => a.get(i),
        None => None,
    }
}

/// Calls `Arena::insert_at` on the index with the given bits, which form
/// one (`Index::from_bits` refuses bits whose upper half, the generation,
/// is 0). Afterwards the index's slot (the lower half of the bits) holds
/// `v` under exactly these bits; what the slot held before, under any
/// generation, is gone; every other entry stays. `insert_at` panics when
/// the arena would hold more than `u32::MAX` entries, which the `requires`
/// rules out.
#[verifier::external_body]
pub(crate) fn sched_arena_insert_at(a: &mut Arena<NodeEventSchedulerData>, k: u64, v: NodeEventSchedulerData)
    requires
        k >= 0x1_0000_0000,
        sched_arena_contents(*old(a)).dom().len() < u32::MAX,
    ensures
        sched_arena_contents(*final(a)) == sched_arena_contents(*old(a)).restrict(
            sched_arena_contents(*old(a)).dom().filter(|k2: u64| k2 % 0x1_0000_0000 != k % 0x1_0000_0000),
        ).insert(k, v),
{
    if let Some(i) = Index::from_bits(k) {
        let _ = a.insert_at(i, v);
    }
}

/// Calls `Arena::remove` on the index with the given bits.
#[verifier::external_body]
pub(crate) fn sched_arena_remove(a: &mut Arena<NodeEventSchedulerData>, k: u64) -> (r: Option<NodeEventSchedulerData>)
    ensures
        r == (if sched_arena_contents(*old(a)).contains_key(k) {
            Some(sched_arena_contents(*old(a))[k])
        } else {
            None
        }),
        sched_arena_contents(*final(a)) == sched_arena_contents(*old(a)).remove(k),
{
    match Index::from_bits(k) {
        Some(i) => a.remove(i),
        None => None,
    }
}

/// Calls `Arena::get_mut` on an occupied index and swaps the given value
/// in (`core::mem::replace`), returning the value that was there.
#[verifier::external_body]
pub(crate) fn sched_arena_replace(
    a: &mut Arena<NodeEventSchedulerData>,
    k: u64,
    v: NodeEventSchedulerData,
) -> (r: NodeEventSchedulerData)
    requires
        sched_arena_contents(*old(a)).contains_key(k),
    ensures
        r == sched_arena_contents(*old(a))[k],
        sched_arena_contents(*final(a)) == sched_arena_contents(*old(a)).insert(k, v),
{
    match Index::from_bits(k) {
        Some(i) => match a.get_mut(i) {
            Some(slot) => core::mem::replace(slot, v),
            None => v,
        },
        None => v,
    }
}

} // verus!

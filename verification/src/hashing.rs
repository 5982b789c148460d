//! Trusted access to `ahash::AHashMap`, the hash map that indexes the
//! graph's edges by their endpoints and holds removed nodes until the
//! audio thread has released them.
//!
//! `AHashMap` forwards `get`, `insert` and `remove` to
//! `std::collections::HashMap`, so each map is seen through the `Map` of
//! its entries with the usual semantics of those operations. The keys
//! are integers and tuples of integers, whose `Eq` and `Hash` std
//! defines.
use crate::ids::{EdgeHash, NodeEntry};
use ahash::{AHashMap, RandomState};
use vstd::prelude::*;

verus! {

#[verifier::external_type_specification]
#[verifier::external_body]
#[verifier::reject_recursive_types(K)]
#[verifier::reject_recursive_types(V)]
#[verifier::reject_recursive_types(S)]
pub struct ExAHashMap<K, V, S>(AHashMap<K, V, S>);

#[verifier::external_type_specification]
#[verifier::external_body]
pub struct ExRandomState(RandomState);

/// The entries of a map from edge endpoints to edge-ID bits.
pub uninterp spec fn edge_index_contents(m: AHashMap<EdgeHash, u64, RandomState>) -> Map<
    EdgeHash,
    u64,
>;

/// The entries of a map from node-ID bits to node entries.
pub uninterp spec fn node_map_contents(m: AHashMap<u64, NodeEntry, RandomState>) -> Map<
    u64,
    NodeEntry,
>;

/// Calls `AHashMap::with_capacity`: a new map is empty.
#[verifier::external_body]
pub(crate) fn edge_index_new(capacity: usize) -> (r: AHashMap<EdgeHash, u64, RandomState>)
    ensures
        edge_index_contents(r).is_empty(),
{
    AHashMap::with_capacity(capacity)
}

/// Calls `AHashMap::contains_key` (through `Deref` to `HashMap`).
#[verifier::external_body]
pub(crate) fn edge_index_contains(m: &AHashMap<EdgeHash, u64, RandomState>, k: EdgeHash) -> (r:
    bool)
    ensures
        r == edge_index_contents(*m).contains_key(k),
{
    m.contains_key(&k)
}

/// Calls `AHashMap::get` and copies the value out.
#[verifier::external_body]
pub(crate) fn edge_index_get(m: &AHashMap<EdgeHash, u64, RandomState>, k: EdgeHash) -> (r: Option<u64>)
    ensures
        r == (if edge_index_contents(*m).contains_key(k) {
            Some(edge_index_contents(*m)[k])
        } else {
            None
        }),
{
    m.get(&k).copied()
}

/// Calls `AHashMap::insert`, which overwrites the value of a present key.
#[verifier::external_body]
pub(crate) fn edge_index_insert(m: &mut AHashMap<EdgeHash, u64, RandomState>, k: EdgeHash, v: u64)
    ensures
        edge_index_contents(*final(m)) == edge_index_contents(*old(m)).insert(k, v),
{
    m.insert(k, v);
}

/// Calls `AHashMap::remove`, which hands back the value of a present key.
#[verifier::external_body]
pub(crate) fn edge_index_remove(m: &mut AHashMap<EdgeHash, u64, RandomState>, k: EdgeHash) -> (r:
    Option<u64>)
    ensures
        r == (if edge_index_contents(*old(m)).contains_key(k) {
            Some(edge_index_contents(*old(m))[k])
        } else {
            None
        }),
        edge_index_contents(*final(m)) == edge_index_contents(*old(m)).remove(k),
{
    m.remove(&k)
}

/// Calls `AHashMap::with_capacity`: a new map is empty.
#[verifier::external_body]
pub(crate) fn node_map_new(capacity: usize) -> (r: AHashMap<u64, NodeEntry, RandomState>)
    ensures
        node_map_contents(r).is_empty(),
{
    AHashMap::with_capacity(capacity)
}

/// Calls `AHashMap::insert`, which overwrites the value of a present key.
#[verifier::external_body]
pub(crate) fn node_map_insert(m: &mut AHashMap<u64, NodeEntry, RandomState>, k: u64, v: NodeEntry)
    ensures
        node_map_contents(*final(m)) == node_map_contents(*old(m)).insert(k, v),
{
    m.insert(k, v);
}

/// Calls `AHashMap::remove`, which hands back the value of a present key.
#[verifier::external_body]
pub(crate) fn node_map_remove(m: &mut AHashMap<u64, NodeEntry, RandomState>, k: u64) -> (r:
    Option<NodeEntry>)
    ensures
        r == (if node_map_contents(*old(m)).contains_key(k) {
            Some(node_map_contents(*old(m))[k])
        } else {
            None
        }),
        node_map_contents(*final(m)) == node_map_contents(*old(m)).remove(k),
{
    m.remove(&k)
}

/// Calls `HashMap::clear` (through `DerefMut`): the map becomes empty.
#[verifier::external_body]
pub(crate) fn node_map_clear(m: &mut AHashMap<u64, NodeEntry, RandomState>)
    ensures
        node_map_contents(*final(m)).is_empty(),
{
    m.clear();
}

} // verus!

//! Identifiers of nodes and edges, and the plain records the graph keeps
//! for them.
use crate::channel::ChannelConfig;
use vstd::prelude::*;

verus! {

/// The index of a port on a node.
pub type PortIdx = u32;

/// The globally unique ID of a node: the bits of the node's index in the
/// graph's node arena.
#[derive(Debug, Clone, Copy, PartialEq, Eq, Hash, Structural)]
pub struct NodeID(pub u64);

/// The globally unique ID of an edge: the bits of the edge's index in the
/// graph's edge arena.
#[derive(Debug, Clone, Copy, PartialEq, Eq, Hash, Structural)]
pub struct EdgeID(pub u64);

/// An edge (connection) from an output port of one node to an input port
/// of another.
#[derive(Debug, Clone, Copy, PartialEq, Eq, Structural)]
pub struct Edge {
    pub id: EdgeID,
    /// The ID of the source node used by this edge.
    pub src_node: NodeID,
    /// The ID of the source port used by this edge.
    pub src_port: PortIdx,
    /// The ID of the destination node used by this edge.
    pub dst_node: NodeID,
    /// The ID of the destination port used by this edge.
    pub dst_port: PortIdx,
}

/// What the graph records of a node.
#[derive(Debug, Clone, Copy, PartialEq, Eq, Structural)]
pub struct NodeEntry {
    /// The ID of the node.
    pub id: NodeID,
    /// The channel configuration the node was added with.
    pub channel_config: ChannelConfig,
    /// Whether the node's processor is currently active.
    pub activated: bool,
    /// Whether the node asks to be updated on every update of the graph.
    pub updates: bool,
}

/// The four numbers that identify a connection: source node, source port,
/// destination node, destination port.
pub type EdgeHash = (u64, u32, u64, u32);

pub open spec fn edge_hash(e: Edge) -> EdgeHash {
    (e.src_node.0, e.src_port, e.dst_node.0, e.dst_port)
}

} // verus!

//! Errors of the audio graph.
use crate::channel::{ChannelConfig, ChannelCount};
use crate::ids::{Edge, EdgeID, NodeID, PortIdx};
use vstd::prelude::*;

verus! {

/// An error occurred while attempting to add an edge to the graph.
#[derive(Debug, Clone, Copy, PartialEq, Eq, Structural)]
pub enum AddEdgeError {
    /// The given source node was not found in the graph.
    SrcNodeNotFound(NodeID),
    /// The given destination node was not found in the graph.
    DstNodeNotFound(NodeID),
    /// The given input port index is out of range.
    InPortOutOfRange { node: NodeID, port_idx: PortIdx, num_in_ports: ChannelCount },
    /// The given output port index is out of range.
    OutPortOutOfRange { node: NodeID, port_idx: PortIdx, num_out_ports: ChannelCount },
    /// The edge already exists in the graph.
    EdgeAlreadyExists,
    /// This edge would have created a cycle in the graph.
    CycleDetected,
}

/// An error occurred while adding a node to the graph.
#[derive(Debug, Clone, Copy, PartialEq, Eq, Structural)]
pub enum NodeError {
    /// The channel configuration lies outside what the node supports.
    InvalidChannelConfig { channel_config: ChannelConfig },
}

/// An error occurred while compiling the graph into a schedule.
#[derive(Debug, Clone, PartialEq, Eq)]
pub enum CompileGraphError {
    /// A cycle was detected in the graph.
    CycleDetected,
    /// The input data contained an edge referring to a non-existing node.
    NodeOnEdgeNotFound(Edge, NodeID),
    /// The input data contained multiple nodes with the same ID.
    NodeIDNotUnique(NodeID),
    /// The input data contained multiple edges with the same ID.
    EdgeIDNotUnique(EdgeID),
    /// There was an error constructing a node's processor.
    ProcessorConstructionFailed(String),
}

/// An error while removing a node from a context.
#[derive(Debug, Clone, Copy, PartialEq, Eq, Structural)]
pub enum RemoveNodeError {
    /// Removing the graph in node is not allowed.
    CannotRemoveGraphInNode,
    /// Removing the graph out node is not allowed.
    CannotRemoveGraphOutNode,
}

/// An error occurred while deactivating a context.
#[derive(Debug, Clone, Copy, PartialEq, Eq, Structural)]
pub enum DeactivateError {
    /// Timed out waiting for the context to deactivate.
    TimedOut,
}

} // verus!

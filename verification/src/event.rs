//! Events addressed to nodes, and when they are meant to happen.
use crate::ids::NodeID;
use vstd::prelude::*;

verus! {

/// The clock an event was scheduled on.
#[derive(Debug, Clone, Copy, PartialEq, Eq, Structural)]
pub enum EventTimeKind {
    /// A sample position of the audio clock.
    Samples,
    /// A time in seconds on the audio clock.
    Seconds,
    /// A musical time on the transport.
    Musical,
}

/// When a scheduled event is meant to happen: the clock it was given on,
/// and that time resolved to a sample position of the audio clock
/// (`i64::MAX` for a musical time while no transport is running).
#[derive(Debug, Clone, Copy, PartialEq, Eq, Structural)]
pub struct EventTime {
    pub kind: EventTimeKind,
    pub samples: i64,
}

/// An event addressed to a node.
pub struct NodeEvent<E> {
    /// The node the event is for.
    pub node_id: NodeID,
    /// When the event is meant to happen; `None` for an event that takes
    /// effect at the start of the next processing block.
    pub time: Option<EventTime>,
    /// The event itself.
    pub event: E,
}

/// Whether an event was scheduled on the musical transport.
pub open spec fn is_musical_event<E>(e: NodeEvent<E>) -> bool {
    e.time matches Some(t) && t.kind == EventTimeKind::Musical
}

/// Where a node finds an event of its current sub-chunk: a position in the
/// immediate event buffer, or a slot of the scheduled event arena.
#[derive(Debug, Clone, Copy, PartialEq, Eq, Structural)]
pub enum NodeEventListIndex {
    Immediate(u32),
    Scheduled(u32),
}

} // verus!

//! A verified core for an audio graph engine: the structure of the audio
//! graph (nodes, ports and edges) and cycle detection; the buffer
//! bookkeeping of a compiled schedule; the audio-thread event scheduler;
//! the per-node decisions of the processor within a block (bypass fades,
//! callbacks, merging of sub-chunk statuses); the sampler's playback
//! bookkeeping; the musical transport's decisions; the worker pool; and the
//! small value types that configure nodes.
#![allow(unused_imports)]

use vstd::prelude::*;

pub mod arena;
pub mod block_process;
pub mod buffer_lists;
pub mod buffers;
pub mod channel;
pub mod clumps;
pub mod config;
pub mod context;
pub mod error;
pub mod event;
pub mod graph;
pub mod hashing;
pub mod ids;
pub mod nodes;
pub mod pool;
pub mod runs;
pub mod sampler;
pub mod schedule;
pub mod scheduler;
pub mod time;
pub mod topo;
pub mod transport;

verus! {

} // verus!

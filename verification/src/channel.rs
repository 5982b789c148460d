//! Channel counts and channel configurations of audio nodes.
use vstd::prelude::*;

verus! {

/// The maximum number of channels that a node port list can have.
pub const MAX_CHANNELS: u32 = 64;

/// A supported number of channels on an audio node.
///
/// This number cannot be greater than `64`.
#[derive(Debug, Clone, Copy, PartialEq, Eq, Structural)]
pub struct ChannelCount(u32);

impl ChannelCount {
    #[verifier::type_invariant]
    spec fn inv(self) -> bool {
        self.0 <= 64
    }

    /// The number of channels.
    pub closed spec fn count(self) -> u32 {
        self.0
    }

    /// Create a new `ChannelCount`; `None` if `count` is greater than `64`.
    pub fn new(count: u32) -> (r: Option<ChannelCount>)
        ensures
            r is Some <==> count <= 64,
            r matches Some(c) ==> c.count() == count,
    {
        if count <= 64 {
            Some(ChannelCount(count))
        } else {
            None
        }
    }

    pub closed spec fn zero_spec() -> ChannelCount {
        ChannelCount(0)
    }

    /// No channels.
    pub fn zero() -> (r: ChannelCount)
        ensures
            r.count() == 0,
            r == Self::zero_spec(),
    {
        ChannelCount(0)
    }

    /// One channel.
    pub fn mono() -> (r: ChannelCount)
        ensures
            r.count() == 1,
    {
        ChannelCount(1)
    }

    /// Two channels.
    pub fn stereo() -> (r: ChannelCount)
        ensures
            r.count() == 2,
    {
        ChannelCount(2)
    }

    /// The largest supported number of channels.
    pub fn max() -> (r: ChannelCount)
        ensures
            r.count() == MAX_CHANNELS,
    {
        ChannelCount(MAX_CHANNELS)
    }

    /// Two channel counts are equal exactly when they count the same
    /// number of channels.
    pub proof fn lemma_eq_iff_count_eq(a: ChannelCount, b: ChannelCount)
        ensures
            (a == b) <==> (a.count() == b.count()),
    {
    }

    /// The number of channels.
    pub fn get(&self) -> (r: u32)
        ensures
            r == self.count(),
            r <= 64,
    {
        proof {
            use_type_invariant(self);
        }
        self.0
    }
}

/// The number of input and output ports of an audio node.
#[derive(Debug, Clone, Copy, PartialEq, Eq, Structural)]
pub struct ChannelConfig {
    pub num_inputs: ChannelCount,
    pub num_outputs: ChannelCount,
}

} // verus!

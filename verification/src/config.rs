//! Configuration flags and modes of the engine.
use vstd::prelude::*;

verus! {

/// Configuration flags that can be changed after a context has been
/// created.
#[derive(Debug, Clone, Copy, PartialEq, Eq, Structural, Default)]
pub struct FirewheelFlags {
    /// Hard clip all samples in the final output buffer to `[-1.0, 1.0]`.
    pub hard_clip_outputs: bool,
    /// Detect when a sample in the final output buffer falls outside
    /// `[-1.0, 1.0]`.
    pub detect_clipping_on_output: bool,
    /// Validate that all samples in the final output buffer are finite.
    pub validate_output_is_finite: bool,
    /// Force all of a node's output buffers to be cleared before
    /// processing.
    pub force_clear_buffers: bool,
    /// Profile engine bookkeeping on the audio thread.
    pub profile_engine_bookkeeping: bool,
    /// Profile each node.
    pub profile_nodes: bool,
}

/// The flags of a context packed into bits, as the audio thread reads
/// them.
#[derive(Debug, Clone, Copy, PartialEq, Eq, Structural)]
pub struct FirewheelBitFlags {
    pub bits: u32,
}

pub const HARD_CLIP_OUTPUTS: u32 = 1;
pub const DETECT_CLIPPING_ON_OUTPUT: u32 = 2;
pub const VALIDATE_OUTPUT_IS_FINITE: u32 = 4;
pub const FORCE_CLEAR_BUFFERS: u32 = 8;
pub const PROFILE_ENGINE_BOOKKEEPING: u32 = 16;
pub const PROFILE_NODES: u32 = 32;

/// The bits of the flags that are set.
pub open spec fn flag_bits(f: FirewheelFlags) -> u32 {
    (if f.hard_clip_outputs { HARD_CLIP_OUTPUTS } else { 0u32 }) | (if f.detect_clipping_on_output {
        DETECT_CLIPPING_ON_OUTPUT
    } else {
        0u32
    }) | (if f.validate_output_is_finite { VALIDATE_OUTPUT_IS_FINITE } else { 0u32 }) | (
    if f.force_clear_buffers { FORCE_CLEAR_BUFFERS } else { 0u32 }) | (if f.profile_engine_bookkeeping {
        PROFILE_ENGINE_BOOKKEEPING
    } else {
        0u32
    }) | (if f.profile_nodes { PROFILE_NODES } else { 0u32 })
}

impl FirewheelBitFlags {
    /// Packs the flags into bits: one bit per flag that is set.
    pub fn from_flags(value: FirewheelFlags) -> (r: FirewheelBitFlags)
        ensures
            r.bits == flag_bits(value),
    {
        let a: u32 = if value.hard_clip_outputs { HARD_CLIP_OUTPUTS } else { 0 };
        let b: u32 = if value.detect_clipping_on_output { DETECT_CLIPPING_ON_OUTPUT } else { 0 };
        let c: u32 = if value.validate_output_is_finite { VALIDATE_OUTPUT_IS_FINITE } else { 0 };
        let d: u32 = if value.force_clear_buffers { FORCE_CLEAR_BUFFERS } else { 0 };
        let e: u32 = if value.profile_engine_bookkeeping { PROFILE_ENGINE_BOOKKEEPING } else { 0 };
        let g: u32 = if value.profile_nodes { PROFILE_NODES } else { 0 };
        FirewheelBitFlags { bits: a | b | c | d | e | g }
    }

    /// Whether all bits of `flag` are set.
    pub fn contains(&self, flag: u32) -> (r: bool)
        ensures
            r == (self.bits & flag == flag),
    {
        self.bits & flag == flag
    }
}

impl From<FirewheelFlags> for FirewheelBitFlags {
    /// The bit flags of the given flags (see `from_flags`).
    fn from(value: FirewheelFlags) -> (r: FirewheelBitFlags) {
        FirewheelBitFlags::from_flags(value)
    }
}

impl vstd::std_specs::convert::FromSpecImpl<FirewheelFlags> for FirewheelBitFlags {
    open spec fn obeys_from_spec() -> bool {
        true
    }

    open spec fn from_spec(v: FirewheelFlags) -> FirewheelBitFlags {
        FirewheelBitFlags { bits: flag_bits(v) }
    }
}

/// A law of the packed flags: each flag can be read back from the bits.
pub proof fn law_flags_read_back(f: FirewheelFlags)
    ensures
        (flag_bits(f) & HARD_CLIP_OUTPUTS == HARD_CLIP_OUTPUTS) == f.hard_clip_outputs,
        (flag_bits(f) & DETECT_CLIPPING_ON_OUTPUT == DETECT_CLIPPING_ON_OUTPUT) == f.detect_clipping_on_output,
        (flag_bits(f) & VALIDATE_OUTPUT_IS_FINITE == VALIDATE_OUTPUT_IS_FINITE) == f.validate_output_is_finite,
        (flag_bits(f) & FORCE_CLEAR_BUFFERS == FORCE_CLEAR_BUFFERS) == f.force_clear_buffers,
        (flag_bits(f) & PROFILE_ENGINE_BOOKKEEPING == PROFILE_ENGINE_BOOKKEEPING) == f.profile_engine_bookkeeping,
        (flag_bits(f) & PROFILE_NODES == PROFILE_NODES) == f.profile_nodes,
{
    let a1: u32 = if f.hard_clip_outputs { 1 } else { 0 };
    let b1: u32 = if f.detect_clipping_on_output { 2 } else { 0 };
    let c1: u32 = if f.validate_output_is_finite { 4 } else { 0 };
    let d1: u32 = if f.force_clear_buffers { 8 } else { 0 };
    let e1: u32 = if f.profile_engine_bookkeeping { 16 } else { 0 };
    let g1: u32 = if f.profile_nodes { 32 } else { 0 };
    assert(flag_bits(f) == a1 | b1 | c1 | d1 | e1 | g1);
    assert((((a1 | b1 | c1 | d1 | e1 | g1) & 1) == 1) == (a1 == 1)
        && (((a1 | b1 | c1 | d1 | e1 | g1) & 2) == 2) == (b1 == 2)
        && (((a1 | b1 | c1 | d1 | e1 | g1) & 4) == 4) == (c1 == 4)
        && (((a1 | b1 | c1 | d1 | e1 | g1) & 8) == 8) == (d1 == 8)
        && (((a1 | b1 | c1 | d1 | e1 | g1) & 16) == 16) == (e1 == 16)
        && (((a1 | b1 | c1 | d1 | e1 | g1) & 32) == 32) == (g1 == 32)) by (bit_vector)
        requires
            a1 == 0 || a1 == 1,
            b1 == 0 || b1 == 2,
            c1 == 0 || c1 == 4,
            d1 == 0 || d1 == 8,
            e1 == 0 || e1 == 16,
            g1 == 0 || g1 == 32,
    ;
}

/// How to handle event buffers on the audio thread running out of space.
#[derive(Debug, Clone, Copy, PartialEq, Eq, Structural)]
pub enum BufferOutOfSpaceMode {
    /// Reallocate on the audio thread to fit the new items.
    AllocateOnAudioThread,
    /// Panic.
    Panic,
    /// Drop the new items.
    DropEvents,
}

/// The type of scheduled events to clear.
#[derive(Debug, Clone, Copy, PartialEq, Eq, Structural)]
pub enum ClearScheduledEventsType {
    /// Clear both musical and non-musical scheduled events.
    All,
    /// Clear only non-musical scheduled events.
    NonMusicalOnly,
    /// Clear only musical scheduled events.
    MusicalOnly,
}

/// Information about an audio device.
#[derive(Debug, Clone, PartialEq, Eq)]
pub struct DeviceInfo {
    pub name: String,
    pub num_channels: u16,
    pub is_default: bool,
}

} // verus!

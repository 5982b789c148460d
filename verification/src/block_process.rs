//! The decisions the processor makes for one node within one block: how a
//! node fades in and out of bypass, which of its callbacks run for a
//! sub-chunk, and how the statuses it reports for the sub-chunks of a
//! block are merged into one status for the whole block. The audio itself
//! is moved by the caller, as the returned actions say.
use crate::sampler::min_usize;
use crate::schedule::{is_channel_set, lemma_mask_zero, mask_bit, set_channel, ProcessStatus};
use vstd::prelude::*;

verus! {

/// Where the fade that takes a node in or out of bypass stands: settled
/// fully off (`SettledAt0`, the node is bypassed), settled fully on, or
/// fading with some frames left.
#[derive(Debug, Clone, Copy, PartialEq, Eq, Structural)]
pub enum DeclickState {
    SettledAt0,
    SettledAt1,
    FadingTo0 { frames_left: usize },
    FadingTo1 { frames_left: usize },
}

/// The state after a fade towards 0 was asked for, with fades of
/// `fade_frames` frames: a settled-on state starts a full fade; a fade
/// towards 1 turns around, with as many frames left as it had run.
pub open spec fn faded_to_0(d: DeclickState, fade_frames: usize) -> DeclickState {
    match d {
        DeclickState::SettledAt1 => DeclickState::FadingTo0 { frames_left: fade_frames },
        DeclickState::FadingTo1 { frames_left } => DeclickState::FadingTo0 {
            frames_left: if frames_left <= fade_frames { (fade_frames - frames_left) as usize } else { fade_frames },
        },
        _ => d,
    }
}

/// The state after a fade towards 1 was asked for (the mirror image of
/// `faded_to_0`).
pub open spec fn faded_to_1(d: DeclickState, fade_frames: usize) -> DeclickState {
    match d {
        DeclickState::SettledAt0 => DeclickState::FadingTo1 { frames_left: fade_frames },
        DeclickState::FadingTo0 { frames_left } => DeclickState::FadingTo1 {
            frames_left: if frames_left <= fade_frames { (fade_frames - frames_left) as usize } else { fade_frames },
        },
        _ => d,
    }
}

pub open spec fn settled(d: DeclickState) -> bool {
    d is SettledAt0 || d is SettledAt1
}

impl DeclickState {
    /// Starts (or turns around) a fade towards 0.
    pub fn fade_to_0(&mut self, fade_frames: usize)
        ensures
            *final(self) == faded_to_0(*old(self), fade_frames),
    {
        match *self {
            DeclickState::SettledAt1 => {
                *self = DeclickState::FadingTo0 { frames_left: fade_frames };
            },
            DeclickState::FadingTo1 { frames_left } => {
                let left = if frames_left <= fade_frames {
                    fade_frames - frames_left
                } else {
                    fade_frames
                };
                *self = DeclickState::FadingTo0 { frames_left: left };
            },
            _ => {},
        }
    }

    /// Starts (or turns around) a fade towards 1.
    pub fn fade_to_1(&mut self, fade_frames: usize)
        ensures
            *final(self) == faded_to_1(*old(self), fade_frames),
    {
        match *self {
            DeclickState::SettledAt0 => {
                *self = DeclickState::FadingTo1 { frames_left: fade_frames };
            },
            DeclickState::FadingTo0 { frames_left } => {
                let left = if frames_left <= fade_frames {
                    fade_frames - frames_left
                } else {
                    fade_frames
                };
                *self = DeclickState::FadingTo1 { frames_left: left };
            },
            _ => {},
        }
    }

    /// Whether no fade is under way.
    pub fn has_settled(&self) -> (r: bool)
        ensures
            r == settled(*self),
    {
        match *self {
            DeclickState::SettledAt0 => true,
            DeclickState::SettledAt1 => true,
            _ => false,
        }
    }
}

/// One step of the crossfade between a node's input (dry) and its output
/// over a sub-chunk: the first `crossfade_frames` frames are mixed with the
/// fade's gains from `values_start` on, and from `dry_from` on (where
/// given) the output is replaced by the input.
#[derive(Debug, Clone, Copy, PartialEq, Eq, Structural)]
pub struct CrossfadeStep {
    pub crossfade_frames: usize,
    pub values_start: usize,
    pub dry_from: Option<usize>,
}

/// Whether the fade has no more frames left than a whole fade.
pub open spec fn within_fade(d: DeclickState, fade_frames: usize) -> bool {
    match d {
        DeclickState::FadingTo0 { frames_left } => frames_left <= fade_frames,
        DeclickState::FadingTo1 { frames_left } => frames_left <= fade_frames,
        _ => true,
    }
}

/// The fade, in frames, that is left.
pub open spec fn fade_left(d: DeclickState) -> usize {
    match d {
        DeclickState::FadingTo0 { frames_left } => frames_left,
        DeclickState::FadingTo1 { frames_left } => frames_left,
        _ => 0,
    }
}

impl DeclickState {
    /// Runs the fade over a sub-chunk of `frames` frames, for fades of
    /// `fade_frames` frames: a node settled in bypass passes its input
    /// through; a fade mixes as many frames as it has left (towards 0, the
    /// rest of the sub-chunk passes the input through) and settles when it
    /// runs out.
    pub fn advance_crossfade(&mut self, frames: usize, fade_frames: usize) -> (r: CrossfadeStep)
        requires
            within_fade(*old(self), fade_frames),
        ensures
            within_fade(*final(self), fade_frames),
            r.crossfade_frames == min_usize(frames, fade_left(*old(self))),
            r.values_start == (fade_frames - fade_left(*old(self))) as usize,
            r.dry_from == match *old(self) {
                DeclickState::SettledAt0 => Some(0usize),
                DeclickState::FadingTo0 { .. } => if r.crossfade_frames < frames { Some(r.crossfade_frames) } else { None },
                _ => None,
            },
            *final(self) == match *old(self) {
                DeclickState::FadingTo0 { frames_left } => if frames_left <= frames {
                    DeclickState::SettledAt0
                } else {
                    DeclickState::FadingTo0 { frames_left: (frames_left - frames) as usize }
                },
                DeclickState::FadingTo1 { frames_left } => if frames_left <= frames {
                    DeclickState::SettledAt1
                } else {
                    DeclickState::FadingTo1 { frames_left: (frames_left - frames) as usize }
                },
                d => d,
            },
    {
        match *self {
            DeclickState::SettledAt0 => CrossfadeStep { crossfade_frames: 0, values_start: fade_frames, dry_from: Some(0) },
            DeclickState::SettledAt1 => CrossfadeStep { crossfade_frames: 0, values_start: fade_frames, dry_from: None },
            DeclickState::FadingTo0 { frames_left } => {
                let p = if frames < frames_left { frames } else { frames_left };
                let values_start = fade_frames - frames_left;
                *self = if frames_left <= frames {
                    DeclickState::SettledAt0
                } else {
                    DeclickState::FadingTo0 { frames_left: frames_left - frames }
                };
                CrossfadeStep { crossfade_frames: p, values_start, dry_from: if p < frames { Some(p) } else { None } }
            },
            DeclickState::FadingTo1 { frames_left } => {
                let p = if frames < frames_left { frames } else { frames_left };
                let values_start = fade_frames - frames_left;
                *self = if frames_left <= frames {
                    DeclickState::SettledAt1
                } else {
                    DeclickState::FadingTo1 { frames_left: frames_left - frames }
                };
                CrossfadeStep { crossfade_frames: p, values_start, dry_from: None }
            },
        }
    }
}

/// Fades asked for keep within a whole fade.
pub proof fn lemma_fades_stay_within(d: DeclickState, fade_frames: usize)
    requires
        within_fade(d, fade_frames),
    ensures
        within_fade(faded_to_0(d, fade_frames), fade_frames),
        within_fade(faded_to_1(d, fade_frames), fade_frames),
{
}

/// Turning a fade around midway and back again leaves it where it was:
/// a fade towards 1 with `frames_left` frames left, asked to fade to 0 and
/// then to 1, again has `frames_left` frames left (and the same holds the
/// other way round).
pub proof fn law_reversed_fade_resumes(frames_left: usize, fade_frames: usize)
    requires
        frames_left <= fade_frames,
    ensures
        faded_to_1(faded_to_0((DeclickState::FadingTo1 { frames_left }), fade_frames), fade_frames)
            == (DeclickState::FadingTo1 { frames_left }),
        faded_to_0(faded_to_1((DeclickState::FadingTo0 { frames_left }), fade_frames), fade_frames)
            == (DeclickState::FadingTo0 { frames_left }),
{
}

/// The bypass fade of one node over one block, and whether the fade is
/// under way (so that the node's output has to be crossfaded with its
/// input).
#[derive(Debug, Clone, Copy, PartialEq, Eq)]
pub struct BypassTracker {
    pub declick: DeclickState,
    pub is_bypass_declicking: bool,
}

impl BypassTracker {
    /// The tracker at the start of a block.
    pub fn new(declick: DeclickState) -> (r: BypassTracker)
        ensures
            r.declick == declick,
            r.is_bypass_declicking == !settled(declick),
    {
        BypassTracker { declick, is_bypass_declicking: !declick.has_settled() }
    }

    /// Applies a request to bypass the node (`bypassed`) or to take it out
    /// of bypass. A node with outputs fades, over `fade_frames` frames; a
    /// node without outputs switches at once. A request for the state the
    /// node already settled in changes nothing.
    pub fn set_bypassed(&mut self, bypassed: bool, has_outputs: bool, fade_frames: usize)
        ensures
            bypassed && old(self).declick == DeclickState::SettledAt0 ==> *final(self) == *old(self),
            !bypassed && old(self).declick == DeclickState::SettledAt1 ==> *final(self) == *old(self),
            bypassed && old(self).declick != DeclickState::SettledAt0 && has_outputs ==> *final(self) == (BypassTracker {
                declick: faded_to_0(old(self).declick, fade_frames),
                is_bypass_declicking: true,
            }),
            bypassed && old(self).declick != DeclickState::SettledAt0 && !has_outputs ==> *final(self) == (BypassTracker {
                declick: DeclickState::SettledAt0,
                is_bypass_declicking: false,
            }),
            !bypassed && old(self).declick != DeclickState::SettledAt1 && has_outputs ==> *final(self) == (BypassTracker {
                declick: faded_to_1(old(self).declick, fade_frames),
                is_bypass_declicking: true,
            }),
            !bypassed && old(self).declick != DeclickState::SettledAt1 && !has_outputs ==> *final(self) == (BypassTracker {
                declick: DeclickState::SettledAt1,
                is_bypass_declicking: false,
            }),
    {
        if bypassed {
            if self.declick != DeclickState::SettledAt0 {
                if has_outputs {
                    self.declick.fade_to_0(fade_frames);
                    self.is_bypass_declicking = true;
                } else {
                    self.declick = DeclickState::SettledAt0;
                    self.is_bypass_declicking = false;
                }
            }
        } else {
            if self.declick != DeclickState::SettledAt1 {
                if has_outputs {
                    self.declick.fade_to_1(fade_frames);
                    self.is_bypass_declicking = true;
                } else {
                    self.declick = DeclickState::SettledAt1;
                    self.is_bypass_declicking = false;
                }
            }
        }
    }
}

/// What the processor does for a node in one sub-chunk, besides running
/// the fade.
#[derive(Debug, Clone, Copy, PartialEq, Eq, Structural)]
pub struct SubChunkCall {
    /// `Some(true)` where the node is told that it was just bypassed,
    /// `Some(false)` where it is told that it was just taken out of bypass.
    pub notify_bypassed: Option<bool>,
    /// Whether the node's event callback runs.
    pub call_events: bool,
    /// Whether the node's process callback runs; where it does not, the
    /// node is bypassed and its status for the sub-chunk is `Bypass`.
    pub call_process: bool,
    /// Whether the node is told, in its process info, that it was just
    /// taken out of bypass.
    pub did_just_unbypass: bool,
}

/// Decides which of a node's callbacks run for one sub-chunk. A node whose
/// fade has settled at 0 is bypassed: it is told so the first time, gets
/// its events, and is not processed. Any other node is told the first time
/// that it is no longer bypassed, gets its events and is processed. Events
/// are handed over where there are any, and always on the node's first
/// sub-chunk ever.
pub fn plan_sub_chunk_call(
    declick: DeclickState,
    is_bypassed: &mut bool,
    is_first_process: &mut bool,
    has_events: bool,
) -> (r: SubChunkCall)
    ensures
        declick == DeclickState::SettledAt0 ==> {
            &&& !r.call_process
            &&& !r.did_just_unbypass
            &&& r.notify_bypassed == (if !*old(is_bypassed) { Some(true) } else { None })
            &&& *final(is_bypassed)
        },
        declick != DeclickState::SettledAt0 ==> {
            &&& r.call_process
            &&& r.did_just_unbypass == *old(is_bypassed)
            &&& r.notify_bypassed == (if *old(is_bypassed) { Some(false) } else { None })
            &&& !*final(is_bypassed)
        },
        r.call_events == (has_events || *old(is_first_process)),
        *final(is_first_process) == (*old(is_first_process) && !r.call_events),
{
    let call_events = has_events || *is_first_process;
    if call_events {
        *is_first_process = false;
    }
    if declick == DeclickState::SettledAt0 {
        let notify_bypassed = if !*is_bypassed {
            *is_bypassed = true;
            Some(true)
        } else {
            None
        };
        SubChunkCall { notify_bypassed, call_events, call_process: false, did_just_unbypass: false }
    } else {
        let did_just_unbypass = *is_bypassed;
        let notify_bypassed = if did_just_unbypass {
            *is_bypassed = false;
            Some(false)
        } else {
            None
        };
        SubChunkCall { notify_bypassed, call_events, call_process: true, did_just_unbypass }
    }
}

/// The mask with the first `n` channels set (all 64 where `n >= 64`).
pub open spec fn channels_below(n: usize) -> u64 {
    if n >= 64 {
        0xffff_ffff_ffff_ffffu64
    } else {
        ((1u64 << (n as u64)) - 1) as u64
    }
}

/// Whether the first `n` channels of `m` are all set.
pub open spec fn all_set(m: u64, n: usize) -> bool {
    forall|j: int| 0 <= j < 64 && j < n ==> #[trigger] mask_bit(m, j)
}

proof fn lemma_low_bits(n: u64)
    by (bit_vector)
    requires
        n < 64,
    ensures
        (1u64 << n) >= 1,
        forall|j: u64| #![trigger ((((1u64 << n) - 1) as u64) >> j)] j < 64 ==> ((((((1u64 << n) - 1) as u64) >> j) & 1u64 == 1u64) == (j < n)),
{
}

proof fn lemma_and_bits(a: u64, b: u64)
    by (bit_vector)
    ensures
        forall|j: u64| #![trigger ((a & b) >> j)] j < 64 ==> ((((a & b) >> j) & 1u64 == 1u64) == (((a >> j) & 1u64 == 1u64) && ((b >> j) & 1u64 == 1u64))),
{
}

proof fn lemma_all_ones()
    by (bit_vector)
    ensures
        forall|j: u64| #![trigger (0xffff_ffff_ffff_ffffu64 >> j)] j < 64 ==> (0xffff_ffff_ffff_ffffu64 >> j) & 1u64 == 1u64,
{
}

/// Channel by channel, `channels_below(n)` holds exactly the channels
/// below `n`.
pub proof fn lemma_channels_below(n: usize)
    ensures
        forall|j: int| 0 <= j < 64 ==> #[trigger] mask_bit(channels_below(n), j) == (j < n),
{
    let c = channels_below(n);
    if n >= 64 {
        lemma_all_ones();
    } else {
        lemma_low_bits(n as u64);
    }
    assert forall|j: int| 0 <= j < 64 implies #[trigger] mask_bit(c, j) == (j < n) by {
        let ju = j as u64;
        assert(ju as int == j);
    }
}

/// The mask with the first `num_channels` channels set.
pub fn all_channels_mask(num_channels: usize) -> (r: u64)
    ensures
        r == channels_below(num_channels),
{
    if num_channels >= 64 {
        0xffff_ffff_ffff_ffffu64
    } else {
        proof {
            lemma_low_bits(num_channels as u64);
        }
        (1u64 << (num_channels as u64)) - 1
    }
}

/// Whether the first `num_channels` channels of `mask` are all set.
pub fn all_channels_set(mask: u64, num_channels: usize) -> (r: bool)
    ensures
        r == all_set(mask, num_channels),
{
    let n: usize = if num_channels < 64 { num_channels } else { 64 };
    let mut j: usize = 0;
    while j < n
        invariant
            j <= n,
            n <= 64,
            n == (if num_channels < 64 { num_channels } else { 64 }),
            forall|q: int| 0 <= q < j ==> #[trigger] mask_bit(mask, q),
        decreases n - j,
    {
        if !is_channel_set(mask, j) {
            return false;
        }
        j = j + 1;
    }
    true
}

/// Whether a node's output is silent after it reported `status` for a
/// sub-chunk: cleared outputs are; a bypassed node's are where all its
/// inputs are; written outputs are where the node marked them all silent.
pub fn output_was_silent(status: ProcessStatus, in_silence_mask: u64, num_inputs: usize, num_outputs: usize) -> (r: bool)
    ensures
        r == match status {
            ProcessStatus::ClearAllOutputs => true,
            ProcessStatus::Bypass => all_set(in_silence_mask, num_inputs),
            ProcessStatus::OutputsModified => false,
            ProcessStatus::OutputsModifiedWithSilenceMask(m) => all_set(m, num_outputs),
            ProcessStatus::OutputsModifiedWithConstantMask(_) => false,
        },
{
    match status {
        ProcessStatus::ClearAllOutputs => true,
        ProcessStatus::Bypass => all_channels_set(in_silence_mask, num_inputs),
        ProcessStatus::OutputsModified => false,
        ProcessStatus::OutputsModifiedWithSilenceMask(m) => all_channels_set(m, num_outputs),
        ProcessStatus::OutputsModifiedWithConstantMask(_) => false,
    }
}

/// The mask a node's outputs are marked with for a block whose sub-chunks
/// did not all report the same status.
#[derive(Debug, Clone, Copy, PartialEq, Eq, Structural)]
pub enum FinalMask {
    Silence(u64),
    Constant(u64),
}

/// What is done to a node's output samples over a range of the block.
#[derive(Debug, Clone, Copy, PartialEq, Eq, Structural)]
pub enum RangeFix {
    /// Nothing.
    Keep,
    /// Every output is filled with zeros.
    Clear,
    /// Each input is copied to the output of the same port; the other
    /// outputs are filled with zeros.
    PassInputs,
}

/// What is done to a node's outputs after a sub-chunk: `before` applies
/// to the frames before the sub-chunk, `this_chunk` to the sub-chunk.
#[derive(Debug, Clone, Copy, PartialEq, Eq, Structural)]
pub struct MergeActions {
    pub before: RangeFix,
    pub this_chunk: RangeFix,
}

/// The statuses a node reported so far in a block: the last one, and,
/// once two of them differed, the mask its outputs are marked with.
#[derive(Debug, Clone, Copy, PartialEq, Eq)]
pub struct StatusMerge {
    pub prev: Option<ProcessStatus>,
    pub final_mask: Option<FinalMask>,
}

/// Whether `status` is the first status of the block that differs from
/// the one before.
pub open spec fn diverges(st: StatusMerge, status: ProcessStatus) -> bool {
    st.final_mask is None && st.prev is Some && st.prev->0 != status
}

/// The mask that stands for the sub-chunks before the first change of
/// status, which all reported `prev`.
pub open spec fn diverged_mask(prev: ProcessStatus, in_silence_mask: u64, num_outputs: usize) -> FinalMask {
    match prev {
        ProcessStatus::ClearAllOutputs => FinalMask::Silence(channels_below(num_outputs)),
        ProcessStatus::Bypass => FinalMask::Silence(in_silence_mask),
        ProcessStatus::OutputsModified => FinalMask::Silence(0),
        ProcessStatus::OutputsModifiedWithSilenceMask(m) => FinalMask::Silence(m),
        ProcessStatus::OutputsModifiedWithConstantMask(m) => FinalMask::Constant(m),
    }
}

/// What the processor does to a range of output samples for which the
/// node reported `status`, once statuses are merged by hand.
pub open spec fn status_fix(status: ProcessStatus) -> RangeFix {
    match status {
        ProcessStatus::ClearAllOutputs => RangeFix::Clear,
        ProcessStatus::Bypass => RangeFix::PassInputs,
        _ => RangeFix::Keep,
    }
}

/// The merged mask after a sub-chunk that reported `status`: a channel
/// stays marked only where this sub-chunk marks it too. A constant channel
/// whose first sample in this sub-chunk differs from its first sample in
/// the block (`constant_breaks`) is constant no longer. Reports of another
/// kind of mask leave no channel marked.
pub open spec fn mask_after(
    fm: FinalMask,
    status: ProcessStatus,
    in_silence_mask: u64,
    num_outputs: usize,
    constant_breaks: u64,
) -> FinalMask {
    match status {
        ProcessStatus::ClearAllOutputs => fm,
        ProcessStatus::Bypass => match fm {
            FinalMask::Silence(f) => FinalMask::Silence(f & in_silence_mask),
            FinalMask::Constant(_) => FinalMask::Silence(0),
        },
        ProcessStatus::OutputsModified => FinalMask::Silence(0),
        ProcessStatus::OutputsModifiedWithSilenceMask(m) => match fm {
            FinalMask::Silence(f) => FinalMask::Silence(f & m),
            FinalMask::Constant(_) => FinalMask::Silence(0),
        },
        ProcessStatus::OutputsModifiedWithConstantMask(m) => match fm {
            FinalMask::Constant(f) => FinalMask::Constant(f & m & !(constant_breaks & channels_below(num_outputs))),
            FinalMask::Silence(_) => FinalMask::Silence(0),
        },
    }
}

/// The merge state after a sub-chunk that reported `status`.
pub open spec fn merged(
    st: StatusMerge,
    status: ProcessStatus,
    in_silence_mask: u64,
    num_outputs: usize,
    constant_breaks: u64,
) -> StatusMerge {
    let fm0 = if diverges(st, status) {
        Some(diverged_mask(st.prev->0, in_silence_mask, num_outputs))
    } else {
        st.final_mask
    };
    StatusMerge {
        prev: Some(status),
        final_mask: match fm0 {
            Some(fm) => Some(mask_after(fm, status, in_silence_mask, num_outputs, constant_breaks)),
            None => None,
        },
    }
}

/// What is done to the outputs after a sub-chunk that reported `status`.
pub open spec fn merge_actions(st: StatusMerge, status: ProcessStatus) -> MergeActions {
    MergeActions {
        before: if diverges(st, status) { status_fix(st.prev->0) } else { RangeFix::Keep },
        this_chunk: if diverges(st, status) || st.final_mask is Some { status_fix(status) } else { RangeFix::Keep },
    }
}

/// The status reported for the whole block.
pub open spec fn merged_status(st: StatusMerge) -> ProcessStatus {
    match st.final_mask {
        Some(FinalMask::Silence(m)) => ProcessStatus::OutputsModifiedWithSilenceMask(m),
        Some(FinalMask::Constant(m)) => ProcessStatus::OutputsModifiedWithConstantMask(m),
        None => st.prev->0,
    }
}

/// The merge state after a run of sub-chunks.
pub open spec fn merge_all(
    st: StatusMerge,
    statuses: Seq<ProcessStatus>,
    in_silence_mask: u64,
    num_outputs: usize,
    constant_breaks: Seq<u64>,
) -> StatusMerge
    decreases statuses.len(),
{
    if statuses.len() == 0 {
        st
    } else {
        merge_all(
            merged(st, statuses[0], in_silence_mask, num_outputs, constant_breaks[0]),
            statuses.drop_first(),
            in_silence_mask,
            num_outputs,
            constant_breaks.drop_first(),
        )
    }
}

impl StatusMerge {
    /// The merge state at the start of a node's block.
    pub fn new() -> (r: StatusMerge)
        ensures
            r.prev is None,
            r.final_mask is None,
    {
        StatusMerge { prev: None, final_mask: None }
    }

    /// Takes in the status a node reported for a sub-chunk starting at
    /// some frame of the block. While all statuses agree nothing is done;
    /// at the first change, the frames before the sub-chunk are fixed up as
    /// the earlier status asked, and from then on every sub-chunk is fixed
    /// up as its own status asks and the mask is merged by hand.
    /// `constant_breaks` marks the outputs whose first sample in this
    /// sub-chunk differs from their first sample in the block.
    pub fn merge(
        &mut self,
        status: ProcessStatus,
        in_silence_mask: u64,
        num_outputs: usize,
        constant_breaks: u64,
    ) -> (r: MergeActions)
        ensures
            *final(self) == merged(*old(self), status, in_silence_mask, num_outputs, constant_breaks),
            r == merge_actions(*old(self), status),
    {
        let mut before = RangeFix::Keep;
        if self.final_mask.is_none() {
            if let Some(p) = self.prev {
                if p != status {
                    let fm = match p {
                        ProcessStatus::ClearAllOutputs => FinalMask::Silence(all_channels_mask(num_outputs)),
                        ProcessStatus::Bypass => FinalMask::Silence(in_silence_mask),
                        ProcessStatus::OutputsModified => FinalMask::Silence(0),
                        ProcessStatus::OutputsModifiedWithSilenceMask(m) => FinalMask::Silence(m),
                        ProcessStatus::OutputsModifiedWithConstantMask(m) => FinalMask::Constant(m),
                    };
                    before = match p {
                        ProcessStatus::ClearAllOutputs => RangeFix::Clear,
                        ProcessStatus::Bypass => RangeFix::PassInputs,
                        _ => RangeFix::Keep,
                    };
                    self.final_mask = Some(fm);
                }
            }
        }
        self.prev = Some(status);
        let mut this_chunk = RangeFix::Keep;
        if let Some(fm) = self.final_mask {
            this_chunk = match status {
                ProcessStatus::ClearAllOutputs => RangeFix::Clear,
                ProcessStatus::Bypass => RangeFix::PassInputs,
                _ => RangeFix::Keep,
            };
            let next = match status {
                ProcessStatus::ClearAllOutputs => fm,
                ProcessStatus::Bypass => match fm {
                    FinalMask::Silence(f) => FinalMask::Silence(f & in_silence_mask),
                    FinalMask::Constant(_) => FinalMask::Silence(0),
                },
                ProcessStatus::OutputsModified => FinalMask::Silence(0),
                ProcessStatus::OutputsModifiedWithSilenceMask(m) => match fm {
                    FinalMask::Silence(f) => FinalMask::Silence(f & m),
                    FinalMask::Constant(_) => FinalMask::Silence(0),
                },
                ProcessStatus::OutputsModifiedWithConstantMask(m) => match fm {
                    FinalMask::Constant(f) => {
                        let below = all_channels_mask(num_outputs);
                        FinalMask::Constant(f & m & !(constant_breaks & below))
                    },
                    FinalMask::Silence(_) => FinalMask::Silence(0),
                },
            };
            self.final_mask = Some(next);
        }
        MergeActions { before, this_chunk }
    }

    /// The status reported for the whole block: the one all sub-chunks
    /// reported, or the merged mask where they differed.
    pub fn status(&self) -> (r: ProcessStatus)
        requires
            self.prev is Some,
        ensures
            r == merged_status(*self),
    {
        match self.final_mask {
            Some(FinalMask::Silence(m)) => ProcessStatus::OutputsModifiedWithSilenceMask(m),
            Some(FinalMask::Constant(m)) => ProcessStatus::OutputsModifiedWithConstantMask(m),
            None => self.prev.unwrap(),
        }
    }
}

proof fn lemma_uniform_run(
    st: StatusMerge,
    s: ProcessStatus,
    statuses: Seq<ProcessStatus>,
    in_silence_mask: u64,
    num_outputs: usize,
    constant_breaks: Seq<u64>,
)
    requires
        st.final_mask is None,
        st.prev is None || st.prev == Some(s),
        forall|i: int| 0 <= i < statuses.len() ==> #[trigger] statuses[i] == s,
    ensures
        merge_all(st, statuses, in_silence_mask, num_outputs, constant_breaks).final_mask is None,
        statuses.len() > 0 ==> merge_all(st, statuses, in_silence_mask, num_outputs, constant_breaks).prev == Some(s),
        forall|i: int| 0 <= i < statuses.len() ==> #[trigger] merge_actions(
            merge_all(st, statuses.take(i), in_silence_mask, num_outputs, constant_breaks),
            statuses[i],
        ) == (MergeActions { before: RangeFix::Keep, this_chunk: RangeFix::Keep }),
    decreases statuses.len(),
{
    if statuses.len() > 0 {
        let st1 = merged(st, statuses[0], in_silence_mask, num_outputs, constant_breaks[0]);
        let rest = statuses.drop_first();
        assert forall|i: int| 0 <= i < rest.len() implies #[trigger] rest[i] == s by {
            assert(rest[i] == statuses[i + 1]);
        }
        lemma_uniform_run(st1, s, rest, in_silence_mask, num_outputs, constant_breaks.drop_first());
        assert forall|i: int| 0 <= i < statuses.len() implies #[trigger] merge_actions(
            merge_all(st, statuses.take(i), in_silence_mask, num_outputs, constant_breaks),
            statuses[i],
        ) == (MergeActions { before: RangeFix::Keep, this_chunk: RangeFix::Keep }) by {
            if i == 0 {
                assert(statuses.take(0).len() == 0);
            } else {
                let pre = statuses.take(i);
                assert(pre[0] == statuses[0]);
                assert(pre.drop_first() =~= rest.take(i - 1));
                assert(rest[i - 1] == statuses[i]);
                assert(merge_all(st, pre, in_silence_mask, num_outputs, constant_breaks) == merge_all(
                    st1,
                    rest.take(i - 1),
                    in_silence_mask,
                    num_outputs,
                    constant_breaks.drop_first(),
                ));
            }
        }
    }
}

/// If every sub-chunk of a block reports the same status, that status is
/// the node's status for the block, and no output sample is fixed up.
pub proof fn law_uniform_sub_chunks_keep_status(
    s: ProcessStatus,
    statuses: Seq<ProcessStatus>,
    in_silence_mask: u64,
    num_outputs: usize,
    constant_breaks: Seq<u64>,
)
    requires
        statuses.len() > 0,
        forall|i: int| 0 <= i < statuses.len() ==> #[trigger] statuses[i] == s,
    ensures
        merged_status(
            merge_all(StatusMerge { prev: None, final_mask: None }, statuses, in_silence_mask, num_outputs, constant_breaks),
        ) == s,
        forall|i: int| 0 <= i < statuses.len() ==> #[trigger] merge_actions(
            merge_all(
                StatusMerge { prev: None, final_mask: None },
                statuses.take(i),
                in_silence_mask,
                num_outputs,
                constant_breaks,
            ),
            statuses[i],
        ) == (MergeActions { before: RangeFix::Keep, this_chunk: RangeFix::Keep }),
{
    lemma_uniform_run(StatusMerge { prev: None, final_mask: None }, s, statuses, in_silence_mask, num_outputs, constant_breaks);
}

proof fn lemma_unmasked_run_is_uniform(
    st: StatusMerge,
    statuses: Seq<ProcessStatus>,
    in_silence_mask: u64,
    num_outputs: usize,
    constant_breaks: Seq<u64>,
)
    requires
        merge_all(st, statuses, in_silence_mask, num_outputs, constant_breaks).final_mask is None,
    ensures
        st.final_mask is None,
        forall|i: int| 0 <= i < statuses.len() ==> #[trigger] statuses[i] == statuses[0],
        st.prev is Some && statuses.len() > 0 ==> statuses[0] == st.prev->0,
    decreases statuses.len(),
{
    if statuses.len() > 0 {
        let st1 = merged(st, statuses[0], in_silence_mask, num_outputs, constant_breaks[0]);
        let rest = statuses.drop_first();
        lemma_unmasked_run_is_uniform(st1, rest, in_silence_mask, num_outputs, constant_breaks.drop_first());
        assert forall|i: int| 0 <= i < statuses.len() implies #[trigger] statuses[i] == statuses[0] by {
            if i > 0 {
                assert(statuses[i] == rest[i - 1]);
            }
        }
    }
}

/// If two sub-chunks of a block report different statuses, the node's
/// status for the block is one that carries a mask, merged by hand.
pub proof fn law_mixed_sub_chunks_report_a_mask(
    statuses: Seq<ProcessStatus>,
    i: int,
    j: int,
    in_silence_mask: u64,
    num_outputs: usize,
    constant_breaks: Seq<u64>,
)
    requires
        0 <= i < j < statuses.len(),
        statuses[i] != statuses[j],
    ensures
        ({
            let st = merge_all(
                StatusMerge { prev: None, final_mask: None },
                statuses,
                in_silence_mask,
                num_outputs,
                constant_breaks,
            );
            &&& st.final_mask is Some
            &&& (merged_status(st) is OutputsModifiedWithSilenceMask || merged_status(st) is OutputsModifiedWithConstantMask)
        }),
{
    let st = merge_all(StatusMerge { prev: None, final_mask: None }, statuses, in_silence_mask, num_outputs, constant_breaks);
    if st.final_mask is None {
        lemma_unmasked_run_is_uniform(
            StatusMerge { prev: None, final_mask: None },
            statuses,
            in_silence_mask,
            num_outputs,
            constant_breaks,
        );
        assert(statuses[i] == statuses[0]);
        assert(statuses[j] == statuses[0]);
    }
}

/// The outputs a sub-chunk leaves silent by its status (for a status that
/// carries no constant mask): all of them where they are cleared, the
/// silent inputs' where the inputs pass through, none where the outputs
/// were written, and the marked ones where a silence mask is given.
pub open spec fn silence_of(status: ProcessStatus, in_silence_mask: u64, num_outputs: usize) -> u64 {
    match status {
        ProcessStatus::ClearAllOutputs => channels_below(num_outputs),
        ProcessStatus::Bypass => in_silence_mask,
        ProcessStatus::OutputsModified => 0,
        ProcessStatus::OutputsModifiedWithSilenceMask(m) => m,
        ProcessStatus::OutputsModifiedWithConstantMask(_) => 0,
    }
}

/// Whether output `c` is marked silent in what the merge state stands for
/// so far: the merged mask once statuses differed, else the silence of the
/// status reported so far (every output where none was).
pub open spec fn silent_so_far(st: StatusMerge, in_silence_mask: u64, num_outputs: usize, c: int) -> bool {
    match st.final_mask {
        Some(FinalMask::Silence(f)) => mask_bit(f, c),
        Some(FinalMask::Constant(_)) => false,
        None => match st.prev {
            Some(p) => mask_bit(silence_of(p, in_silence_mask, num_outputs), c),
            None => true,
        },
    }
}

proof fn lemma_silence_run(
    st: StatusMerge,
    statuses: Seq<ProcessStatus>,
    in_silence_mask: u64,
    num_outputs: usize,
    constant_breaks: Seq<u64>,
)
    requires
        !(st.final_mask matches Some(FinalMask::Constant(_))),
        !(st.prev matches Some(ProcessStatus::OutputsModifiedWithConstantMask(_))),
        forall|k: int| 0 <= k < statuses.len() ==> !(#[trigger] statuses[k] is OutputsModifiedWithConstantMask),
    ensures
        ({
            let r = merge_all(st, statuses, in_silence_mask, num_outputs, constant_breaks);
            &&& !(r.final_mask matches Some(FinalMask::Constant(_)))
            &&& forall|c: int| 0 <= c < 64 && c < num_outputs ==> #[trigger] silent_so_far(r, in_silence_mask, num_outputs, c)
                == (silent_so_far(st, in_silence_mask, num_outputs, c) && forall|k: int|
                0 <= k < statuses.len() ==> mask_bit(silence_of(#[trigger] statuses[k], in_silence_mask, num_outputs), c))
        }),
    decreases statuses.len(),
{
    if statuses.len() > 0 {
        let s0 = statuses[0];
        let st1 = merged(st, s0, in_silence_mask, num_outputs, constant_breaks[0]);
        let rest = statuses.drop_first();
        assert forall|k: int| 0 <= k < rest.len() implies !(#[trigger] rest[k] is OutputsModifiedWithConstantMask) by {
            assert(rest[k] == statuses[k + 1]);
        }
        lemma_silence_run(st1, rest, in_silence_mask, num_outputs, constant_breaks.drop_first());
        lemma_channels_below(num_outputs);
        lemma_mask_zero();
        assert forall|c: int| 0 <= c < 64 && c < num_outputs implies #[trigger] silent_so_far(st1, in_silence_mask, num_outputs, c)
            == (silent_so_far(st, in_silence_mask, num_outputs, c) && mask_bit(silence_of(s0, in_silence_mask, num_outputs), c)) by {
            let fm0 = if diverges(st, s0) {
                Some(diverged_mask(st.prev->0, in_silence_mask, num_outputs))
            } else {
                st.final_mask
            };
            match fm0 {
                Some(FinalMask::Silence(f)) => {
                    assert(mask_bit(f, c) == silent_so_far(st, in_silence_mask, num_outputs, c));
                    lemma_merged_mask_channels(f, in_silence_mask, 0, num_outputs);
                    match s0 {
                        ProcessStatus::OutputsModifiedWithSilenceMask(m) => {
                            lemma_merged_mask_channels(f, m, 0, num_outputs);
                        },
                        _ => {},
                    }
                },
                _ => {},
            }
        }
        let r = merge_all(st, statuses, in_silence_mask, num_outputs, constant_breaks);
        assert forall|c: int| 0 <= c < 64 && c < num_outputs implies #[trigger] silent_so_far(r, in_silence_mask, num_outputs, c)
            == (silent_so_far(st, in_silence_mask, num_outputs, c) && forall|k: int|
            0 <= k < statuses.len() ==> mask_bit(silence_of(#[trigger] statuses[k], in_silence_mask, num_outputs), c)) by {
            let all_rest = forall|k: int| 0 <= k < rest.len() ==> mask_bit(silence_of(#[trigger] rest[k], in_silence_mask, num_outputs), c);
            let all = forall|k: int| 0 <= k < statuses.len() ==> mask_bit(silence_of(#[trigger] statuses[k], in_silence_mask, num_outputs), c);
            let b0 = mask_bit(silence_of(s0, in_silence_mask, num_outputs), c);
            if b0 && all_rest {
                assert forall|k: int| 0 <= k < statuses.len() implies mask_bit(silence_of(#[trigger] statuses[k], in_silence_mask, num_outputs), c) by {
                    if k > 0 {
                        assert(statuses[k] == rest[k - 1]);
                    }
                }
            }
            if all {
                assert(b0);
                assert forall|k: int| 0 <= k < rest.len() implies mask_bit(silence_of(#[trigger] rest[k], in_silence_mask, num_outputs), c) by {
                    assert(rest[k] == statuses[k + 1]);
                }
            }
            assert(all == (b0 && all_rest));
        }
    }
}

/// Once the sub-chunks of a block report different statuses, none of them
/// with a constant mask, the node's status for the block is a silence mask
/// that marks an output exactly where every sub-chunk left it silent (see
/// [`silence_of`]).
pub proof fn law_mixed_sub_chunks_intersect_silence(
    statuses: Seq<ProcessStatus>,
    i: int,
    j: int,
    in_silence_mask: u64,
    num_outputs: usize,
    constant_breaks: Seq<u64>,
)
    requires
        0 <= i < j < statuses.len(),
        statuses[i] != statuses[j],
        forall|k: int| 0 <= k < statuses.len() ==> !(#[trigger] statuses[k] is OutputsModifiedWithConstantMask),
    ensures
        merged_status(
            merge_all(StatusMerge { prev: None, final_mask: None }, statuses, in_silence_mask, num_outputs, constant_breaks),
        ) matches ProcessStatus::OutputsModifiedWithSilenceMask(m) && forall|c: int|
            0 <= c < 64 && c < num_outputs ==> #[trigger] mask_bit(m, c) == forall|k: int|
                0 <= k < statuses.len() ==> mask_bit(silence_of(#[trigger] statuses[k], in_silence_mask, num_outputs), c),
{
    let st0 = StatusMerge { prev: None, final_mask: None };
    law_mixed_sub_chunks_report_a_mask(statuses, i, j, in_silence_mask, num_outputs, constant_breaks);
    lemma_silence_run(st0, statuses, in_silence_mask, num_outputs, constant_breaks);
    let r = merge_all(st0, statuses, in_silence_mask, num_outputs, constant_breaks);
    match r.final_mask {
        Some(FinalMask::Silence(f)) => {
            assert forall|c: int| 0 <= c < 64 && c < num_outputs implies #[trigger] mask_bit(f, c) == forall|k: int|
                0 <= k < statuses.len() ==> mask_bit(silence_of(#[trigger] statuses[k], in_silence_mask, num_outputs), c) by {
                assert(silent_so_far(r, in_silence_mask, num_outputs, c) == mask_bit(f, c));
                assert(silent_so_far(st0, in_silence_mask, num_outputs, c));
            }
        },
        _ => {},
    }
}

proof fn lemma_and_not_bits(f: u64, m: u64, b: u64)
    by (bit_vector)
    ensures
        forall|j: u64| #![trigger ((f & m & !b) >> j)] j < 64 ==> ((((f & m & !b) >> j) & 1u64 == 1u64) == (((f >> j) & 1u64 == 1u64)
            && ((m >> j) & 1u64 == 1u64) && !((b >> j) & 1u64 == 1u64))),
{
}

/// Channel by channel, the merged masks: a silence mask keeps a channel
/// where both masks mark it; a constant mask keeps a channel where both
/// masks mark it and its first sample did not change.
pub proof fn lemma_merged_mask_channels(f: u64, m: u64, constant_breaks: u64, num_outputs: usize)
    ensures
        forall|j: int| 0 <= j < 64 ==> #[trigger] mask_bit(f & m, j) == (mask_bit(f, j) && mask_bit(m, j)),
        forall|j: int| 0 <= j < 64 ==> #[trigger] mask_bit(f & m & !(constant_breaks & channels_below(num_outputs)), j)
            == (mask_bit(f, j) && mask_bit(m, j) && !(j < num_outputs && mask_bit(constant_breaks, j))),
{
    let c = channels_below(num_outputs);
    lemma_channels_below(num_outputs);
    lemma_and_bits(f, m);
    lemma_and_bits(constant_breaks, c);
    lemma_and_not_bits(f, m, constant_breaks & c);
    assert forall|j: int| 0 <= j < 64 implies #[trigger] mask_bit(f & m, j) == (mask_bit(f, j) && mask_bit(m, j)) by {
        let ju = j as u64;
        assert(ju as int == j);
    }
    assert forall|j: int| 0 <= j < 64 implies #[trigger] mask_bit(f & m & !(constant_breaks & c), j) == (mask_bit(f, j)
        && mask_bit(m, j) && !(j < num_outputs && mask_bit(constant_breaks, j))) by {
        let ju = j as u64;
        assert(ju as int == j);
        assert(mask_bit(c, j) == (j < num_outputs));
        assert(mask_bit(constant_breaks & c, j) == (mask_bit(constant_breaks, j) && mask_bit(c, j)));
    }
}

} // verus!

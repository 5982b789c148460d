//! Configuration and state types of the built-in nodes.
use crate::block_process::{all_channels_set, all_set};
use crate::channel::{ChannelConfig, ChannelCount};
use crate::graph::NodeInfo;
use crate::schedule::{is_channel_set, mask_bit};
use vstd::prelude::*;

verus! {

/// The configuration of a mix node (both counts are nonzero): `num_in_streams` input streams of
/// `channels` channels each are summed into one stream of `channels`
/// channels.
#[derive(Debug, Clone, Copy)]
pub struct MixNodeConfig {
    channels: u32,
    num_in_streams: u32,
}

impl MixNodeConfig {
    #[verifier::type_invariant]
    spec fn inv(self) -> bool {
        self.channels > 0 && self.num_in_streams > 0
    }
}

/// An error in a [`MixNodeConfig`].
#[derive(Debug, Clone, Copy)]
pub enum MixConfigError {
    /// The number of channels times the number of input streams is greater
    /// than 64.
    TooManyChannels { channels: u32, num_in_streams: u32 },
}

impl MixNodeConfig {
    pub closed spec fn spec_channels(self) -> u32 {
        self.channels
    }

    pub closed spec fn spec_num_in_streams(self) -> u32 {
        self.num_in_streams
    }

    /// Creates a configuration; it is refused when the total number of
    /// input channels, `channels * num_in_streams`, is greater than 64.
    pub fn new(channels: u32, num_in_streams: u32) -> (r: Result<MixNodeConfig, MixConfigError>)
        requires
            channels > 0,
            num_in_streams > 0,
        ensures
            r is Ok <==> channels * num_in_streams <= 64,
            r matches Ok(c) ==> c.spec_channels() == channels && c.spec_num_in_streams()
                == num_in_streams,
            r matches Err(MixConfigError::TooManyChannels { channels: c, num_in_streams: n }) ==> c
                == channels && n == num_in_streams,
    {
        assert((channels as u64) * (num_in_streams as u64) <= 0xffff_fffe_0000_0001u64)
            by (nonlinear_arith)
            requires
                channels <= 0xffff_ffffu32,
                num_in_streams <= 0xffff_ffffu32,
        ;
        if (channels as u64) * (num_in_streams as u64) > 64 {
            return Err(MixConfigError::TooManyChannels { channels, num_in_streams });
        }
        Ok(MixNodeConfig { channels, num_in_streams })
    }

    /// The number of channels in each stream.
    pub fn channels(&self) -> (r: u32)
        ensures
            r == self.spec_channels(),
            r > 0,
    {
        proof {
            use_type_invariant(self);
        }
        self.channels
    }

    /// The number of input streams.
    pub fn num_in_streams(&self) -> (r: u32)
        ensures
            r == self.spec_num_in_streams(),
            r > 0,
    {
        proof {
            use_type_invariant(self);
        }
        self.num_in_streams
    }
}


/// A node that does nothing.
#[derive(Debug, Clone, Copy, Default)]
pub struct DummyProcessor;

/// A node that copies a mono input to both channels of a stereo output.
#[derive(Debug, Clone, Copy, Default)]
pub struct MonoToStereoNode;

/// A node that sums groups of its inputs into its outputs.
#[derive(Debug, Clone, Copy, Default)]
pub struct SumNode;

/// A node that clamps its inputs to `[-1.0, 1.0]`.
#[derive(Debug, Clone, Copy, Default)]
pub struct HardClipNode;

impl MonoToStereoNode {
    /// One mono input, one stereo output.
    pub fn info(&self) -> (r: NodeInfo)
        ensures
            r.num_min_supported_inputs.count() == 1,
            r.num_max_supported_inputs.count() == 1,
            r.num_min_supported_outputs.count() == 2,
            r.num_max_supported_outputs.count() == 2,
            r.default_channel_config.num_inputs.count() == 1,
            r.default_channel_config.num_outputs.count() == 2,
            !r.equal_num_ins_and_outs,
            !r.updates,
    {
        NodeInfo {
            num_min_supported_inputs: ChannelCount::mono(),
            num_max_supported_inputs: ChannelCount::mono(),
            num_min_supported_outputs: ChannelCount::stereo(),
            num_max_supported_outputs: ChannelCount::stereo(),
            default_channel_config: ChannelConfig { num_inputs: ChannelCount::mono(), num_outputs: ChannelCount::stereo() },
            equal_num_ins_and_outs: false,
            updates: false,
        }
    }
}

impl SumNode {
    /// From one to 64 inputs and outputs; four inputs summed into two
    /// outputs by default.
    pub fn info(&self) -> (r: NodeInfo)
        ensures
            r.num_min_supported_inputs.count() == 1,
            r.num_max_supported_inputs.count() == 64,
            r.num_min_supported_outputs.count() == 1,
            r.num_max_supported_outputs.count() == 64,
            r.default_channel_config.num_inputs.count() == 4,
            r.default_channel_config.num_outputs.count() == 2,
            !r.equal_num_ins_and_outs,
            !r.updates,
    {
        let four = ChannelCount::new(4).unwrap();
        NodeInfo {
            num_min_supported_inputs: ChannelCount::mono(),
            num_max_supported_inputs: ChannelCount::max(),
            num_min_supported_outputs: ChannelCount::mono(),
            num_max_supported_outputs: ChannelCount::max(),
            default_channel_config: ChannelConfig { num_inputs: four, num_outputs: ChannelCount::stereo() },
            equal_num_ins_and_outs: false,
            updates: false,
        }
    }

    /// A sum node takes a configuration whose number of inputs is a multiple
    /// of its number of outputs (which is nonzero).
    pub fn channel_config_supported(&self, channel_config: ChannelConfig) -> (r: bool)
        requires
            channel_config.num_outputs.count() > 0,
        ensures
            r == (channel_config.num_inputs.count() % channel_config.num_outputs.count() == 0),
    {
        channel_config.num_inputs.get() % channel_config.num_outputs.get() == 0
    }

    /// The number of input ports (groups of inputs) a sum node with a
    /// supported configuration sums.
    pub fn num_in_ports(&self, channel_config: ChannelConfig) -> (r: usize)
        requires
            channel_config.num_outputs.count() > 0,
            channel_config.num_inputs.count() % channel_config.num_outputs.count() == 0,
        ensures
            r == channel_config.num_inputs.count() / channel_config.num_outputs.count(),
    {
        (channel_config.num_inputs.get() / channel_config.num_outputs.get()) as usize
    }
}

impl HardClipNode {
    /// From one to 64 channels, as many inputs as outputs; stereo by
    /// default.
    pub fn info(&self) -> (r: NodeInfo)
        ensures
            r.num_min_supported_inputs.count() == 1,
            r.num_max_supported_inputs.count() == 64,
            r.num_min_supported_outputs.count() == 1,
            r.num_max_supported_outputs.count() == 64,
            r.default_channel_config.num_inputs.count() == 2,
            r.default_channel_config.num_outputs.count() == 2,
            r.equal_num_ins_and_outs,
            !r.updates,
    {
        NodeInfo {
            num_min_supported_inputs: ChannelCount::mono(),
            num_max_supported_inputs: ChannelCount::max(),
            num_min_supported_outputs: ChannelCount::mono(),
            num_max_supported_outputs: ChannelCount::max(),
            default_channel_config: ChannelConfig { num_inputs: ChannelCount::stereo(), num_outputs: ChannelCount::stereo() },
            equal_num_ins_and_outs: true,
            updates: false,
        }
    }
}

/// The configuration of a filter node over a fixed number of channels.
#[derive(Debug, Clone, Copy, Default)]
pub struct ConstChannelFilterNodeConfig<const NUM_CHANNELS: usize>;

/// The configuration of a highpass filter node.
#[derive(Debug, Clone, Copy, Default)]
pub struct HighpassFilterNodeConfig<const NUM_CHANNELS: usize>;

/// The configuration of a low-shelf filter node.
#[derive(Debug, Clone, Copy, Default)]
pub struct LowShelfFilterNodeConfig<const NUM_CHANNELS: usize>;

/// The configuration of a multipurpose filter node.
#[derive(Debug, Clone, Copy, Default)]
pub struct MultipurposeFilterNodeConfig<const NUM_CHANNELS: usize>;

/// The configuration of a rejection filter node.
#[derive(Debug, Clone, Copy, Default)]
pub struct RejectionFilterNodeConfig<const NUM_CHANNELS: usize>;

/// The kind of filter a multipurpose filter node applies.
#[derive(Debug, Clone, Copy, PartialEq, Eq, Structural)]
pub enum FilterType {
    Lowpass,
    Highpass,
    Notch,
    Bell,
    LowShelf,
    HighShelf,
    Allpass,
}

/// The quality of the resampling algorithm used for changing the playback
/// speed of a sampler node.
#[derive(Debug, Clone, Copy, PartialEq, Eq, Structural)]
pub enum PlaybackSpeedQuality {
    /// Low quality, fast performance: linear resampling with no
    /// antialiasing filter.
    LinearFast,
}

/// The current playback state of a sampler node's processor.
#[derive(Debug, Clone, Copy, PartialEq, Eq, Structural)]
pub enum PlaybackState {
    /// The processor has either not started playing a sample yet or it has
    /// finished playing its sample.
    Stopped,
    /// The processor is currently paused.
    Paused,
    /// The processor is currently playing a sample.
    Playing,
}

/// The ID of a playback of a sampler node (the ID of its `play`
/// parameter); later playbacks have larger IDs.
#[derive(Debug, Clone, Copy, PartialEq, Eq, Structural)]
pub struct PlaybackID(pub u64);

/// The current state of a sampler node's processor.
#[derive(Debug, Clone, Copy, PartialEq, Eq, Structural)]
pub struct CurrentProcessorState {
    /// Whether or not the processor currently has a sample resource.
    pub has_sample_resource: bool,
    /// The current playback state.
    pub playback_state: PlaybackState,
    /// The current playback ID.
    pub playback_id: PlaybackID,
    /// The ID of the last playback that has finished/stopped.
    pub last_finished_playback_id: PlaybackID,
    /// The current position of the playhead in frames.
    pub playhead_frames: u64,
    /// The age of the current playback in frames.
    pub age_frames: u64,
}

/// How many times a sample should be repeated.
#[derive(Debug, Clone, Copy, PartialEq, Eq, Structural)]
pub enum RepeatMode {
    /// Play the sample once and then stop.
    PlayOnce,
    /// Repeat the sample the given number of times.
    RepeatMultiple { num_times_to_repeat: u32 },
    /// Repeat the sample endlessly.
    RepeatEndlessly,
}

impl RepeatMode {
    /// Whether playback loops back to the start again after it has looped
    /// back `num_times_looped_back` times.
    pub fn do_loop(&self, num_times_looped_back: u64) -> (r: bool)
        ensures
            r == match *self {
                RepeatMode::PlayOnce => false,
                RepeatMode::RepeatMultiple { num_times_to_repeat } => num_times_looped_back < num_times_to_repeat,
                RepeatMode::RepeatEndlessly => true,
            },
    {
        match self {
            RepeatMode::PlayOnce => false,
            RepeatMode::RepeatMultiple { num_times_to_repeat } => num_times_looped_back < *num_times_to_repeat as u64,
            RepeatMode::RepeatEndlessly => true,
        }
    }
}

/// The playback state shared between a sampler node and its processor,
/// stored as a `u32`.
#[derive(Debug, Clone, Copy, PartialEq, Eq, Structural)]
pub enum SharedPlaybackState {
    Stopped,
    Paused,
    Playing,
}

impl SharedPlaybackState {
    /// The number the state is stored as.
    pub open spec fn spec_to_u32(self) -> u32 {
        match self {
            SharedPlaybackState::Stopped => 0,
            SharedPlaybackState::Paused => 1,
            SharedPlaybackState::Playing => 2,
        }
    }

    /// The number the state is stored as.
    pub fn to_u32(self) -> (r: u32)
        ensures
            r == self.spec_to_u32(),
    {
        match self {
            SharedPlaybackState::Stopped => 0,
            SharedPlaybackState::Paused => 1,
            SharedPlaybackState::Playing => 2,
        }
    }

    /// The state stored as `val`; any number other than 1 and 2 reads as
    /// stopped.
    pub fn from_u32(val: u32) -> (r: Self)
        ensures
            r == (if val == 1 {
                SharedPlaybackState::Paused
            } else if val == 2 {
                SharedPlaybackState::Playing
            } else {
                SharedPlaybackState::Stopped
            }),
    {
        match val {
            1 => SharedPlaybackState::Paused,
            2 => SharedPlaybackState::Playing,
            _ => SharedPlaybackState::Stopped,
        }
    }
}

/// A law of the shared playback state: reading back the stored number
/// gives the state that was stored.
pub proof fn law_shared_playback_state_round_trip(s: SharedPlaybackState)
    ensures
        (if s.spec_to_u32() == 1 {
            SharedPlaybackState::Paused
        } else if s.spec_to_u32() == 2 {
            SharedPlaybackState::Playing
        } else {
            SharedPlaybackState::Stopped
        }) == s,
{
}

/// Whether the playback with the given ID has finished, given the last
/// finished playback ID.
pub fn playback_id_has_finished(state: &CurrentProcessorState, id: PlaybackID) -> (r: bool)
    ensures
        r == (id.0 <= state.last_finished_playback_id.0),
{
    id.0 <= state.last_finished_playback_id.0
}

/// How suitable a sampler node is to start new work: the higher, the
/// better. `playback_id` and `play` are those of the parameters the worker
/// last played; `state` is the processor's current state.
pub fn worker_score(state: &CurrentProcessorState, playback_id: PlaybackID, play: bool) -> (r: u64)
    ensures
        r == (if playback_id.0 <= state.last_finished_playback_id.0 {
            u64::MAX
        } else if play {
            if playback_id == state.playback_id && state.playback_state == PlaybackState::Stopped {
                (u64::MAX - 4) as u64
            } else {
                state.age_frames
            }
        } else if !state.has_sample_resource {
            u64::MAX
        } else {
            match state.playback_state {
                PlaybackState::Stopped => (u64::MAX - 1) as u64,
                PlaybackState::Paused => (u64::MAX - 2) as u64,
                PlaybackState::Playing => (u64::MAX - 3) as u64,
            }
        }),
{
    if playback_id.0 <= state.last_finished_playback_id.0 {
        // The sequence has finished playing.
        return u64::MAX;
    }
    if play {
        let not_started = match state.playback_state {
            PlaybackState::Stopped => playback_id.0 == state.playback_id.0,
            _ => false,
        };
        if not_started {
            // The sequence has not started playing yet.
            u64::MAX - 4
        } else {
            // The older the sample is, the better it is as a candidate to
            // steal work from.
            state.age_frames
        }
    } else if !state.has_sample_resource {
        u64::MAX
    } else {
        match state.playback_state {
            PlaybackState::Stopped => u64::MAX - 1,
            PlaybackState::Paused => u64::MAX - 2,
            PlaybackState::Playing => u64::MAX - 3,
        }
    }
}

/// A sampler node used as the first node of each worker of a pool.
#[derive(Debug, Clone, Copy, Default)]
pub struct SamplerPool;

/// Information about an active stream node.
#[derive(Debug, Clone, Copy, PartialEq, Eq, Structural)]
pub struct ActiveStreamNodeInfo {
    /// The sample rate of the stream (nonzero).
    pub stream_sample_rate: u32,
    pub latency_frames: usize,
    pub capacity_frames: usize,
}

/// `q` copies of `d` fit in `x`: the quotient is at least `q`.
proof fn lemma_quotient_at_least(x: int, d: int, q: int, rest: int)
    requires
        d > 0,
        q >= 0,
        rest >= 0,
        x == q * d + rest,
    ensures
        q <= x / d,
{
    vstd::arithmetic::div_mod::lemma_div_is_ordered(q * d, x, d);
    vstd::arithmetic::div_mod::lemma_div_multiples_vanish_fancy(q, 0, d);
    assert(d * q + 0 == q * d) by (nonlinear_arith);
}

/// The playhead and loop count when playback is put at `playhead_frames`
/// in a sample of `sample_len_frames` frames after `num_times_looped_back`
/// loops (see `resolve_playhead`).
pub open spec fn resolved_playhead(
    repeat_mode: RepeatMode,
    playhead_frames: u64,
    sample_len_frames: u64,
    num_times_looped_back: u64,
) -> (u64, u64) {
    if playhead_frames < sample_len_frames {
        (playhead_frames, num_times_looped_back)
    } else {
        match repeat_mode {
            RepeatMode::PlayOnce => (sample_len_frames, num_times_looped_back),
            RepeatMode::RepeatEndlessly => (
                (playhead_frames % sample_len_frames) as u64,
                (num_times_looped_back + playhead_frames / sample_len_frames) as u64,
            ),
            RepeatMode::RepeatMultiple { num_times_to_repeat } => if num_times_looped_back <= num_times_to_repeat
                && num_times_to_repeat - num_times_looped_back < playhead_frames / sample_len_frames {
                (sample_len_frames, num_times_to_repeat as u64)
            } else {
                (
                    (playhead_frames % sample_len_frames) as u64,
                    (num_times_looped_back + playhead_frames / sample_len_frames) as u64,
                )
            },
        }
    }
}

/// Where playback starts when a sample is played from `playhead_frames`
/// into a sample of `sample_len_frames` frames, and how many times it has
/// looped back by then. A position past the end is wrapped back into the
/// sample as the repeat mode allows, each wrap counting as one more loop;
/// where no more loops are allowed it stops at the end of the sample.
/// Returns the new playhead and the new loop count.
pub fn resolve_playhead(
    repeat_mode: RepeatMode,
    playhead_frames: u64,
    sample_len_frames: u64,
    num_times_looped_back: u64,
) -> (r: (u64, u64))
    requires
        playhead_frames >= sample_len_frames && !(repeat_mode is PlayOnce) ==> sample_len_frames > 0,
        sample_len_frames > 0 ==> num_times_looped_back + playhead_frames / sample_len_frames <= u64::MAX,
    ensures
        r == resolved_playhead(repeat_mode, playhead_frames, sample_len_frames, num_times_looped_back),
{
    let mut new_playhead = playhead_frames;
    let mut looped = num_times_looped_back;
    if new_playhead >= sample_len_frames {
        match repeat_mode {
            RepeatMode::PlayOnce => {
                new_playhead = sample_len_frames;
            },
            RepeatMode::RepeatEndlessly => {
                let ghost mut k: int = 0;
                proof {
                    lemma_quotient_at_least(playhead_frames as int, sample_len_frames as int, 1, playhead_frames - sample_len_frames);
                }
                while new_playhead >= sample_len_frames
                    invariant
                        sample_len_frames > 0,
                        num_times_looped_back + playhead_frames / sample_len_frames <= u64::MAX,
                        new_playhead == playhead_frames - k * sample_len_frames,
                        looped == num_times_looped_back + k,
                        0 <= k,
                        k * sample_len_frames <= playhead_frames,
                        new_playhead >= sample_len_frames ==> k + 1 <= playhead_frames / sample_len_frames,
                    decreases new_playhead,
                {
                    new_playhead = new_playhead - sample_len_frames;
                    looped = looped + 1;
                    proof {
                        k = k + 1;
                        assert(k * sample_len_frames == (k - 1) * sample_len_frames + sample_len_frames) by (nonlinear_arith);
                        if new_playhead >= sample_len_frames {
                            assert(playhead_frames == (k + 1) * sample_len_frames + (new_playhead - sample_len_frames)) by (nonlinear_arith)
                                requires
                                    new_playhead == playhead_frames - k * sample_len_frames,
                            ;
                            lemma_quotient_at_least(playhead_frames as int, sample_len_frames as int, k + 1, new_playhead - sample_len_frames);
                        }
                    }
                }
                proof {
                    vstd::arithmetic::div_mod::lemma_fundamental_div_mod_converse(
                        playhead_frames as int,
                        sample_len_frames as int,
                        k,
                        new_playhead as int,
                    );
                }
            },
            RepeatMode::RepeatMultiple { num_times_to_repeat } => {
                let n = num_times_to_repeat as u64;
                let ghost mut k: int = 0;
                proof {
                    lemma_quotient_at_least(playhead_frames as int, sample_len_frames as int, 1, playhead_frames - sample_len_frames);
                }
                while new_playhead >= sample_len_frames
                    invariant_except_break
                        new_playhead == playhead_frames - k * sample_len_frames,
                    invariant
                        sample_len_frames > 0,
                        num_times_looped_back + playhead_frames / sample_len_frames <= u64::MAX,
                        n == num_times_to_repeat,
                        looped == num_times_looped_back + k,
                        0 <= k,
                        k * sample_len_frames <= playhead_frames,
                        new_playhead >= sample_len_frames && new_playhead == playhead_frames - k * sample_len_frames ==> k + 1
                            <= playhead_frames / sample_len_frames,
                        num_times_looped_back <= n ==> k <= n - num_times_looped_back,
                    ensures
                        (new_playhead == sample_len_frames && looped == n && num_times_looped_back <= n && k == n - num_times_looped_back
                            && k < playhead_frames / sample_len_frames) || (new_playhead < sample_len_frames && new_playhead
                            == playhead_frames - k * sample_len_frames && looped == num_times_looped_back + k),
                    decreases playhead_frames - k * sample_len_frames, (if looped == n { 0int } else { 1int }),
                {
                    if looped == n {
                        new_playhead = sample_len_frames;
                        break;
                    }
                    new_playhead = new_playhead - sample_len_frames;
                    looped = looped + 1;
                    proof {
                        k = k + 1;
                        assert(k * sample_len_frames == (k - 1) * sample_len_frames + sample_len_frames) by (nonlinear_arith);
                        if new_playhead >= sample_len_frames {
                            assert(playhead_frames == (k + 1) * sample_len_frames + (new_playhead - sample_len_frames)) by (nonlinear_arith)
                                requires
                                    new_playhead == playhead_frames - k * sample_len_frames,
                            ;
                            lemma_quotient_at_least(playhead_frames as int, sample_len_frames as int, k + 1, new_playhead - sample_len_frames);
                        }
                    }
                }
                proof {
                    if new_playhead < sample_len_frames {
                        vstd::arithmetic::div_mod::lemma_fundamental_div_mod_converse(
                            playhead_frames as int,
                            sample_len_frames as int,
                            k,
                            new_playhead as int,
                        );
                    }
                }
            },
        }
    }
    (new_playhead, looped)
}

/// How a mix node fills its outputs from `num_in_streams` input streams of
/// as many channels as it has outputs.
#[derive(Debug, Clone, PartialEq, Eq)]
pub enum MixPlan {
    /// All inputs are silent: the outputs are cleared.
    ClearAllOutputs,
    /// One stream: each input is copied to its output, which is as silent
    /// as the input.
    CopyInputs,
    /// For each output channel, the inputs summed into it, the first copied
    /// and the others added.
    Sum { sources: Vec<Vec<usize>> },
}

/// The input channels summed into output channel `ch`: channel `ch` of
/// each stream, skipping silent channels after the first stream where
/// there are more than four streams.
pub open spec fn mix_sources(in_silence_mask: u64, num_outputs: usize, num_in_streams: usize, ch: int) -> Seq<usize> {
    let all = Seq::new(num_in_streams as nat, |p: int| (ch + num_outputs * p) as usize);
    if num_in_streams <= 4 {
        all
    } else {
        seq![ch as usize] + all.skip(1).filter(|i: usize| !mask_bit(in_silence_mask, i as int))
    }
}

/// Plans how a mix node fills its outputs: nothing but clearing where all
/// its inputs are silent, a plain copy where there is one stream, else a
/// sum per output channel (see `mix_sources`).
pub fn mix_plan(in_silence_mask: u64, num_inputs: usize, num_outputs: usize, num_in_streams: usize) -> (r: MixPlan)
    requires
        num_inputs <= 64,
        num_inputs != num_outputs ==> num_inputs >= num_outputs * num_in_streams,
    ensures
        all_set(in_silence_mask, num_inputs) ==> r == MixPlan::ClearAllOutputs,
        !all_set(in_silence_mask, num_inputs) && num_inputs == num_outputs ==> r == MixPlan::CopyInputs,
        !all_set(in_silence_mask, num_inputs) && num_inputs != num_outputs ==> (r matches MixPlan::Sum { sources } && sources@.len()
            == num_outputs && forall|ch: int| 0 <= ch < num_outputs ==> (#[trigger] sources@[ch])@ == mix_sources(
            in_silence_mask,
            num_outputs,
            num_in_streams,
            ch,
        )),
{
    if all_channels_set(in_silence_mask, num_inputs) {
        return MixPlan::ClearAllOutputs;
    }
    if num_inputs == num_outputs {
        return MixPlan::CopyInputs;
    }
    proof {
        assert(num_outputs * num_in_streams <= 64);
    }
    let mut sources: Vec<Vec<usize>> = Vec::new();
    let mut ch: usize = 0;
    while ch < num_outputs
        invariant
            ch <= num_outputs,
            num_inputs <= 64,
            num_inputs >= num_outputs * num_in_streams,
            sources@.len() == ch,
            forall|c: int| 0 <= c < ch ==> (#[trigger] sources@[c])@ == mix_sources(in_silence_mask, num_outputs, num_in_streams, c),
        decreases num_outputs - ch,
    {
        let ghost all = Seq::new(num_in_streams as nat, |p: int| (ch + num_outputs * p) as usize);
        let mut list: Vec<usize> = Vec::new();
        let mut p: usize = 0;
        while p < num_in_streams
            invariant
                p <= num_in_streams,
                ch < num_outputs,
                num_inputs >= num_outputs * num_in_streams,
                num_inputs <= 64,
                all == Seq::new(num_in_streams as nat, |q: int| (ch + num_outputs * q) as usize),
                num_in_streams <= 4 ==> list@ == all.take(p as int),
                num_in_streams > 4 && p > 0 ==> list@ == seq![ch] + all.take(p as int).skip(1).filter(
                    |i: usize| !mask_bit(in_silence_mask, i as int),
                ),
                num_in_streams > 4 && p == 0 ==> list@.len() == 0,
            decreases num_in_streams - p,
        {
            proof {
                assert(ch + num_outputs * p < num_outputs * num_in_streams) by (nonlinear_arith)
                    requires
                        ch < num_outputs,
                        p < num_in_streams,
                ;
            }
            let idx = ch + num_outputs * p;
            let ghost before = list@;
            if num_in_streams <= 4 || p == 0 || !is_channel_set(in_silence_mask, idx) {
                list.push(idx);
            }
            proof {
                assert(all[p as int] == idx);
                assert(all.take(p + 1) =~= all.take(p as int).push(idx));
                if num_in_streams > 4 {
                    if p == 0 {
                        assert(all.take(1).skip(1) =~= Seq::<usize>::empty());
                        assert(Seq::<usize>::empty().filter(|i: usize| !mask_bit(in_silence_mask, i as int)) =~= Seq::<usize>::empty()) by {
                            reveal(Seq::filter);
                        }
                        assert(list@ =~= seq![ch] + all.take(1).skip(1).filter(|i: usize| !mask_bit(in_silence_mask, i as int)));
                    } else {
                        let pr = |i: usize| !mask_bit(in_silence_mask, i as int);
                        assert(all.take(p + 1).skip(1) =~= all.take(p as int).skip(1).push(idx));
                        all.take(p as int).skip(1).lemma_filter_push(idx, pr);
                    }
                }
            }
            p = p + 1;
        }
        proof {
            assert(all.take(num_in_streams as int) =~= all);
        }
        sources.push(list);
        ch = ch + 1;
    }
    MixPlan::Sum { sources }
}

} // verus!

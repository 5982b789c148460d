//! The bookkeeping of the sampler node: which frames of a sample are
//! copied where in an output block, how the playhead moves and loops, the
//! fades that smooth out stopped playbacks, and which outputs are left
//! silent. The samples themselves are copied by the caller, as each plan
//! says.
use crate::block_process::{all_channels_mask, channels_below, lemma_channels_below};
use crate::block_process::{faded_to_0, settled, DeclickState};
use crate::nodes::{resolve_playhead, resolved_playhead, CurrentProcessorState, PlaybackID, PlaybackState, RepeatMode};
use crate::schedule::{lemma_mask_zero, mask_bit, ProcessStatus};
use vstd::prelude::*;

verus! {

/// One copy of frames from the sample into the output buffers.
#[derive(Debug, Clone, Copy, PartialEq, Eq, Structural)]
pub struct SampleCopy {
    /// The first frame written in the output buffers.
    pub buffer_start: usize,
    /// How many frames are copied.
    pub frames: usize,
    /// The first frame read from the sample.
    pub sample_start: u64,
}

/// How a range of the output block is filled from the sample.
#[derive(Debug, Clone, PartialEq, Eq)]
pub struct SampleCopyPlan {
    /// The copies, in order; together they cover the range from its start
    /// up to `zero_from` (or its end).
    pub copies: Vec<SampleCopy>,
    /// Where playback reached the end of the sample and does not loop: the
    /// first frame from which the filled channels are zeroed.
    pub zero_from: Option<usize>,
    /// Whether the sample finished playing.
    pub finished: bool,
    /// How many output channels hold sample data.
    pub channels_filled: usize,
    /// The playhead after the copies.
    pub playhead_frames: u64,
    /// The loop count after the copies.
    pub num_times_looped_back: u64,
}

/// How many frames are copied from the playhead onward before the end of
/// the sample (or of the range) is reached.
pub open spec fn first_copy_frames(playhead_frames: u64, sample_len_frames: u64, block_frames: int) -> int {
    if playhead_frames + block_frames > sample_len_frames {
        sample_len_frames - playhead_frames
    } else {
        block_frames
    }
}

pub open spec fn min_usize(a: usize, b: usize) -> usize {
    if a < b { a } else { b }
}

/// What `plan_sample_copy` returns: the plan `r` for filling
/// `range_start..range_end` from a sample of `sample_len_frames` frames
/// played from `playhead_frames`, having looped back
/// `num_times_looped_back` times.
pub open spec fn sample_copy_plan(
    r: SampleCopyPlan,
    playhead_frames: u64,
    sample_len_frames: u64,
    num_times_looped_back: u64,
    range_start: usize,
    range_end: usize,
    looping: bool,
    num_buffers: usize,
    sample_num_channels: usize,
) -> bool {
    let first = first_copy_frames(playhead_frames, sample_len_frames, range_end - range_start);
    let ends = first < range_end - range_start;
    let off: int = if first > 0 { 1 } else { 0 };
    let c = r.copies@;
    &&& r.finished == (ends && !looping)
    &&& r.zero_from == (if ends && !looping { Some((range_start + first) as usize) } else { None })
    &&& r.channels_filled == min_usize(num_buffers, sample_num_channels)
    &&& first > 0 ==> c.len() > 0 && c[0] == (SampleCopy {
        buffer_start: range_start,
        frames: first as usize,
        sample_start: playhead_frames,
    })
    &&& (ends && looping) == (c.len() > off)
    &&& forall|i: int| off <= i < c.len() ==> {
        &&& (#[trigger] c[i]).sample_start == 0
        &&& c[i].buffer_start == (if i == off { range_start + first } else { c[i - 1].buffer_start + c[i - 1].frames })
        &&& c[i].frames == (if range_end - c[i].buffer_start < sample_len_frames {
            range_end - c[i].buffer_start
        } else {
            sample_len_frames as int
        })
    }
    &&& c.len() > off ==> c.last().buffer_start + c.last().frames == range_end
    &&& r.num_times_looped_back == num_times_looped_back + (c.len() - off)
    &&& r.playhead_frames == (if c.len() > off { c.last().frames as u64 } else { (playhead_frames + first) as u64 })
}

/// Fills `range_start..range_end` of the output buffers from the sample,
/// starting at the playhead. Frames up to the end of the sample are
/// copied from the playhead; past it, a looping sample starts over from
/// its first frame (each restart counting as one more loop), as often as
/// the range needs, while a sample that does not loop has the rest of the
/// range zeroed and is finished. `num_buffers` output buffers and a sample
/// of `sample_num_channels` channels fill the smaller of the two counts.
pub fn plan_sample_copy(
    playhead_frames: u64,
    sample_len_frames: u64,
    num_times_looped_back: u64,
    range_start: usize,
    range_end: usize,
    looping: bool,
    num_buffers: usize,
    sample_num_channels: usize,
) -> (r: SampleCopyPlan)
    requires
        range_start <= range_end,
        playhead_frames <= sample_len_frames,
        playhead_frames + (range_end - range_start) <= u64::MAX,
        num_times_looped_back + (range_end - range_start) <= u64::MAX,
        looping && playhead_frames + (range_end - range_start) > sample_len_frames ==> sample_len_frames > 0,
    ensures
        sample_copy_plan(
            r,
            playhead_frames,
            sample_len_frames,
            num_times_looped_back,
            range_start,
            range_end,
            looping,
            num_buffers,
            sample_num_channels,
        ),
{
    let block_frames = range_end - range_start;
    let first = if playhead_frames + (block_frames as u64) > sample_len_frames {
        (sample_len_frames - playhead_frames) as usize
    } else {
        block_frames
    };
    let channels_filled = if num_buffers < sample_num_channels {
        num_buffers
    } else {
        sample_num_channels
    };
    let mut copies: Vec<SampleCopy> = Vec::new();
    let mut playhead = playhead_frames;
    let mut looped = num_times_looped_back;
    if first > 0 {
        copies.push(SampleCopy { buffer_start: range_start, frames: first, sample_start: playhead_frames });
        playhead = playhead + (first as u64);
    }
    let ghost off: int = if first > 0 { 1 } else { 0 };
    if first < block_frames {
        if looping {
            let mut copied = first;
            while copied < block_frames
                invariant
                    first <= copied <= block_frames,
                    block_frames == range_end - range_start,
                    first < block_frames,
                    sample_len_frames > 0,
                    num_times_looped_back + block_frames <= u64::MAX,
                    off == (if first > 0 { 1int } else { 0 }),
                    first > 0 ==> copies@.len() > 0 && copies@[0] == (SampleCopy {
                        buffer_start: range_start,
                        frames: first,
                        sample_start: playhead_frames,
                    }),
                    copies@.len() >= off,
                    copied > first ==> copies@.len() > off,
                    copies@.len() > off ==> copies@.last().buffer_start + copies@.last().frames == range_start + copied,
                    forall|i: int| off <= i < copies@.len() ==> {
                        &&& (#[trigger] copies@[i]).sample_start == 0
                        &&& copies@[i].buffer_start == (if i == off { range_start + first } else { copies@[i - 1].buffer_start
                            + copies@[i - 1].frames })
                        &&& copies@[i].frames == (if range_end - copies@[i].buffer_start < sample_len_frames {
                            range_end - copies@[i].buffer_start
                        } else {
                            sample_len_frames as int
                        })
                        &&& copies@[i].frames > 0
                    },
                    looped == num_times_looped_back + (copies@.len() - off),
                    copies@.len() - off <= copied - first,
                    copies@.len() > off ==> playhead == copies@.last().frames,
                    copies@.len() == off ==> playhead == playhead_frames + first,
                decreases block_frames - copied,
            {
                let remaining = block_frames - copied;
                let copy_frames: usize = if (remaining as u64) < sample_len_frames {
                    remaining
                } else {
                    sample_len_frames as usize
                };
                let ghost before = copies@;
                copies.push(SampleCopy { buffer_start: range_start + copied, frames: copy_frames, sample_start: 0 });
                proof {
                    assert forall|i: int| off <= i < copies@.len() implies {
                        &&& (#[trigger] copies@[i]).sample_start == 0
                        &&& copies@[i].buffer_start == (if i == off { range_start + first } else { copies@[i - 1].buffer_start
                            + copies@[i - 1].frames })
                        &&& copies@[i].frames == (if range_end - copies@[i].buffer_start < sample_len_frames {
                            range_end - copies@[i].buffer_start
                        } else {
                            sample_len_frames as int
                        })
                        &&& copies@[i].frames > 0
                    } by {
                        if i < before.len() {
                            assert(copies@[i] == before[i]);
                            if i > off {
                                assert(copies@[i - 1] == before[i - 1]);
                            }
                        } else {
                            if i > off {
                                assert(copies@[i - 1] == before[i - 1]);
                                assert(before.len() > off);
                            } else {
                                assert(before.len() == off);
                                assert(copied == first);
                            }
                        }
                    }
                }
                playhead = copy_frames as u64;
                looped = looped + 1;
                copied = copied + copy_frames;
            }
        } else {
            return SampleCopyPlan {
                copies,
                zero_from: Some(range_start + first),
                finished: true,
                channels_filled,
                playhead_frames: playhead,
                num_times_looped_back: looped,
            };
        }
    }
    SampleCopyPlan {
        copies,
        zero_from: None,
        finished: false,
        channels_filled,
        playhead_frames: playhead,
        num_times_looped_back: looped,
    }
}

/// A fade-out slot: how many frames of its fade are left to mix in, and
/// how many channels it covers.
#[derive(Debug, Clone, Copy, PartialEq, Eq, Structural)]
pub struct StopDeclickerState {
    pub frames_left: usize,
    pub channels: usize,
}

/// Part of a fade-out mixed into one block: frames
/// `start_frame..start_frame + frames` of slot `slot`'s fade are added to
/// the first `frames` frames of the first `channels` outputs.
#[derive(Debug, Clone, Copy, PartialEq, Eq, Structural)]
pub struct DeclickMix {
    pub slot: usize,
    pub start_frame: usize,
    pub frames: usize,
    pub channels: usize,
}

/// Counts the slots whose fade is under way.
pub open spec fn count_active(s: Seq<StopDeclickerState>) -> nat
    decreases s.len(),
{
    if s.len() == 0 {
        0
    } else {
        count_active(s.drop_last()) + if s.last().frames_left > 0 { 1nat } else { 0nat }
    }
}

proof fn lemma_count_active_update(s: Seq<StopDeclickerState>, i: int, v: StopDeclickerState)
    requires
        0 <= i < s.len(),
    ensures
        count_active(s.update(i, v)) + (if s[i].frames_left > 0 { 1int } else { 0 }) == count_active(s) + (if v.frames_left
            > 0 { 1int } else { 0 }),
    decreases s.len(),
{
    let t = s.update(i, v);
    if i == s.len() - 1 {
        assert(t.drop_last() =~= s.drop_last());
    } else {
        assert(t.drop_last() =~= s.drop_last().update(i, v));
        lemma_count_active_update(s.drop_last(), i, v);
    }
}

proof fn lemma_count_active_bound(s: Seq<StopDeclickerState>)
    ensures
        count_active(s) <= s.len(),
        count_active(s) < s.len() ==> exists|i: int| 0 <= i < s.len() && (#[trigger] s[i]).frames_left == 0,
        count_active(s) == 0 ==> forall|i: int| 0 <= i < s.len() ==> (#[trigger] s[i]).frames_left == 0,
    decreases s.len(),
{
    if s.len() > 0 {
        let d = s.drop_last();
        lemma_count_active_bound(d);
        if count_active(s) < s.len() && s.last().frames_left != 0 {
            let i = choose|i: int| 0 <= i < d.len() && (#[trigger] d[i]).frames_left == 0;
            assert(s[i] == d[i]);
        }
        if count_active(s) == 0 {
            assert forall|i: int| 0 <= i < s.len() implies (#[trigger] s[i]).frames_left == 0 by {
                if i < d.len() {
                    assert(s[i] == d[i]);
                }
            }
        }
    }
}

/// The fade-out slots of a sampler: when playback stops, the tail of what
/// was playing fades out in a free slot while playback starts over.
pub struct StopDeclickers {
    slots: Vec<StopDeclickerState>,
    num_active: usize,
    fade_out_frames: usize,
}

impl StopDeclickers {
    /// The slots.
    pub closed spec fn slots(&self) -> Seq<StopDeclickerState> {
        self.slots@
    }

    /// The length of a whole fade, in frames.
    pub closed spec fn fade_frames(&self) -> usize {
        self.fade_out_frames
    }

    /// The count of fades under way matches the slots, and no fade has more
    /// frames left than a whole fade.
    pub closed spec fn wf(&self) -> bool {
        &&& self.num_active == count_active(self.slots@)
        &&& self.fade_out_frames > 0
        &&& forall|i: int| 0 <= i < self.slots@.len() ==> (#[trigger] self.slots@[i]).frames_left <= self.fade_out_frames
    }

    /// `num_declickers` idle slots for fades of `fade_out_frames` frames
    /// (a nonzero count).
    pub fn new(num_declickers: usize, fade_out_frames: usize) -> (r: StopDeclickers)
        requires
            fade_out_frames > 0,
        ensures
            r.wf(),
            r.slots().len() == num_declickers,
            forall|i: int| 0 <= i < num_declickers ==> #[trigger] r.slots()[i] == (StopDeclickerState { frames_left: 0, channels: 0 }),
            r.fade_frames() == fade_out_frames,
    {
        let mut slots: Vec<StopDeclickerState> = Vec::new();
        let mut i: usize = 0;
        while i < num_declickers
            invariant
                i <= num_declickers,
                slots@.len() == i,
                count_active(slots@) == 0,
                forall|j: int| 0 <= j < i ==> #[trigger] slots@[j] == (StopDeclickerState { frames_left: 0, channels: 0 }),
            decreases num_declickers - i,
        {
            let ghost before = slots@;
            slots.push(StopDeclickerState { frames_left: 0, channels: 0 });
            proof {
                assert(slots@.drop_last() =~= before);
                assert(count_active(slots@) == count_active(before));
            }
            i = i + 1;
        }
        StopDeclickers { slots, num_active: 0, fade_out_frames }
    }

    /// How many fades are under way.
    pub fn num_active(&self) -> (r: usize)
        requires
            self.wf(),
        ensures
            r == count_active(self.slots()),
    {
        self.num_active
    }

    /// Starts a fade over `channels` channels in the first idle slot, where
    /// there is one, and returns that slot; the caller renders the fade
    /// into the slot's buffers.
    pub fn start(&mut self, channels: usize) -> (r: Option<usize>)
        requires
            old(self).wf(),
        ensures
            final(self).wf(),
            final(self).fade_frames() == old(self).fade_frames(),
            count_active(old(self).slots()) < old(self).slots().len() <==> r is Some,
            r is None ==> final(self).slots() == old(self).slots(),
            r is Some ==> {
                let i = r->0 as int;
                &&& 0 <= i < old(self).slots().len()
                &&& old(self).slots()[i].frames_left == 0
                &&& forall|j: int| 0 <= j < i ==> (#[trigger] old(self).slots()[j]).frames_left != 0
                &&& final(self).slots() == old(self).slots().update(
                    i,
                    StopDeclickerState { frames_left: old(self).fade_frames(), channels },
                )
            },
    {
        proof {
            lemma_count_active_bound(self.slots@);
        }
        if self.num_active < self.slots.len() {
            let mut i: usize = 0;
            while i < self.slots.len()
                invariant
                    i <= self.slots@.len(),
                    *self == *old(self),
                    self.wf(),
                    forall|j: int| 0 <= j < i ==> (#[trigger] self.slots@[j]).frames_left != 0,
                    exists|j: int| 0 <= j < self.slots@.len() && (#[trigger] self.slots@[j]).frames_left == 0,
                ensures
                    i < self.slots@.len() ==> self.slots@[i as int].frames_left == 0,
                decreases self.slots@.len() - i,
            {
                if self.slots[i].frames_left == 0 {
                    break;
                }
                i = i + 1;
            }
            if i == self.slots.len() {
                proof {
                    let j = choose|j: int| 0 <= j < self.slots@.len() && (#[trigger] self.slots@[j]).frames_left == 0;
                    assert(self.slots@[j].frames_left != 0);
                }
            }
            let ghost before = self.slots@;
            let v = StopDeclickerState { frames_left: self.fade_out_frames, channels };
            self.slots.set(i, v);
            proof {
                lemma_count_active_update(before, i as int, v);
            }
            self.num_active = self.num_active + 1;
            Some(i)
        } else {
            None
        }
    }

    /// Mixes the fades under way into a block of `frames` frames: each
    /// active slot, in order, contributes its next frames (as many as the
    /// block holds or the fade has left) and moves on by that much; a fade
    /// that runs out frees its slot. Returns the mixes and how many output
    /// channels hold sound: `num_filled_channels` or the widest fade mixed
    /// in, whichever is more.
    pub fn advance(&mut self, frames: usize, num_filled_channels: usize) -> (r: (Vec<DeclickMix>, usize))
        requires
            old(self).wf(),
        ensures
            final(self).wf(),
            final(self).fade_frames() == old(self).fade_frames(),
            final(self).slots().len() == old(self).slots().len(),
            forall|i: int| 0 <= i < old(self).slots().len() ==> #[trigger] final(self).slots()[i] == (StopDeclickerState {
                frames_left: (old(self).slots()[i].frames_left - min_usize(frames, old(self).slots()[i].frames_left)) as usize,
                channels: old(self).slots()[i].channels,
            }),
            forall|k: int| 0 <= k < r.0@.len() ==> {
                let m = #[trigger] r.0@[k];
                let d = old(self).slots()[m.slot as int];
                &&& m.slot < old(self).slots().len()
                &&& d.frames_left > 0
                &&& m.start_frame == old(self).fade_frames() - d.frames_left
                &&& m.frames == min_usize(frames, d.frames_left)
                &&& m.channels == d.channels
            },
            forall|k1: int, k2: int| 0 <= k1 < k2 < r.0@.len() ==> (#[trigger] r.0@[k1]).slot < (#[trigger] r.0@[k2]).slot,
            forall|i: int| 0 <= i < old(self).slots().len() && (#[trigger] old(self).slots()[i]).frames_left > 0 ==> exists|k: int|
                0 <= k < r.0@.len() && (#[trigger] r.0@[k]).slot == i,
            r.1 >= num_filled_channels,
            forall|i: int| 0 <= i < old(self).slots().len() && (#[trigger] old(self).slots()[i]).frames_left > 0 ==> r.1
                >= old(self).slots()[i].channels,
            r.1 == num_filled_channels || exists|i: int|
                0 <= i < old(self).slots().len() && (#[trigger] old(self).slots()[i]).frames_left > 0 && r.1
                    == old(self).slots()[i].channels,
    {
        let ghost s0 = self.slots@;
        let mut mixes: Vec<DeclickMix> = Vec::new();
        let mut filled = num_filled_channels;
        if self.num_active > 0 {
            let mut i: usize = 0;
            while i < self.slots.len()
                invariant
                    i <= self.slots@.len(),
                    self.slots@.len() == s0.len(),
                    self.fade_out_frames == old(self).fade_out_frames,
                    s0 == old(self).slots@,
                    old(self).wf(),
                    self.wf(),
                    forall|j: int| 0 <= j < i ==> #[trigger] self.slots@[j] == (StopDeclickerState {
                        frames_left: (s0[j].frames_left - min_usize(frames, s0[j].frames_left)) as usize,
                        channels: s0[j].channels,
                    }),
                    forall|j: int| i <= j < s0.len() ==> #[trigger] self.slots@[j] == s0[j],
                    forall|k: int| 0 <= k < mixes@.len() ==> {
                        let m = #[trigger] mixes@[k];
                        let d = s0[m.slot as int];
                        &&& m.slot < i
                        &&& d.frames_left > 0
                        &&& m.start_frame == self.fade_out_frames - d.frames_left
                        &&& m.frames == min_usize(frames, d.frames_left)
                        &&& m.channels == d.channels
                    },
                    forall|k1: int, k2: int| 0 <= k1 < k2 < mixes@.len() ==> (#[trigger] mixes@[k1]).slot < (#[trigger] mixes@[k2]).slot,
                    forall|j: int| 0 <= j < i && (#[trigger] s0[j]).frames_left > 0 ==> exists|k: int|
                        0 <= k < mixes@.len() && (#[trigger] mixes@[k]).slot == j,
                    filled >= num_filled_channels,
                    forall|j: int| 0 <= j < i && (#[trigger] s0[j]).frames_left > 0 ==> filled >= s0[j].channels,
                    filled == num_filled_channels || exists|j: int|
                        0 <= j < i && (#[trigger] s0[j]).frames_left > 0 && filled == s0[j].channels,
                decreases s0.len() - i,
            {
                let d = self.slots[i];
                if d.frames_left != 0 {
                    let copy_frames = if frames < d.frames_left { frames } else { d.frames_left };
                    let start_frame = self.fade_out_frames - d.frames_left;
                    let ghost old_mixes = mixes@;
                    mixes.push(DeclickMix { slot: i, start_frame, frames: copy_frames, channels: d.channels });
                    let ghost before = self.slots@;
                    let nd = StopDeclickerState { frames_left: d.frames_left - copy_frames, channels: d.channels };
                    self.slots.set(i, nd);
                    proof {
                        lemma_count_active_update(before, i as int, nd);
                    }
                    if nd.frames_left == 0 {
                        self.num_active = self.num_active - 1;
                    }
                    if d.channels > filled {
                        filled = d.channels;
                    }
                    proof {
                        assert forall|j: int| 0 <= j < i + 1 && (#[trigger] s0[j]).frames_left > 0 implies exists|k: int|
                            0 <= k < mixes@.len() && (#[trigger] mixes@[k]).slot == j by {
                            if j < i {
                                let k = choose|k: int| 0 <= k < old_mixes.len() && (#[trigger] old_mixes[k]).slot == j;
                                assert(mixes@[k] == old_mixes[k]);
                            } else {
                                assert(mixes@[mixes@.len() - 1].slot == j);
                            }
                        }
                    }
                } else {
                    proof {
                        assert(self.slots@[i as int] == (StopDeclickerState {
                            frames_left: (s0[i as int].frames_left - min_usize(frames, s0[i as int].frames_left)) as usize,
                            channels: s0[i as int].channels,
                        }));
                    }
                }
                i = i + 1;
            }
        } else {
            proof {
                lemma_count_active_bound(s0);
                assert forall|j: int| 0 <= j < s0.len() implies #[trigger] self.slots@[j] == (StopDeclickerState {
                    frames_left: (s0[j].frames_left - min_usize(frames, s0[j].frames_left)) as usize,
                    channels: s0[j].channels,
                }) by {
                    assert(s0[j].frames_left == 0);
                }
            }
        }
        proof {
            assert(old(self).slots() == s0);
            assert forall|i: int| 0 <= i < old(self).slots().len() && (#[trigger] old(self).slots()[i]).frames_left > 0 implies exists|k: int|
                0 <= k < mixes@.len() && (#[trigger] mixes@[k]).slot == i by {
                assert(s0[i].frames_left > 0);
                lemma_count_active_bound(s0);
            }
            if filled != num_filled_channels {
                let j = choose|j: int| 0 <= j < s0.len() && (#[trigger] s0[j]).frames_left > 0 && filled == s0[j].channels;
                assert(old(self).slots()[j] == s0[j]);
            }
        }
        let r = (mixes, filled);
        proof {
            assert forall|i: int| 0 <= i < old(self).slots().len() && (#[trigger] old(self).slots()[i]).frames_left > 0 implies exists|k: int|
                0 <= k < r.0@.len() && (#[trigger] r.0@[k]).slot == i by {
                let k = choose|k: int| 0 <= k < mixes@.len() && (#[trigger] mixes@[k]).slot == i;
                assert(r.0@[k].slot == i);
            }
        }
        r
    }

    /// Drops every fade (as when the node is bypassed).
    pub fn reset(&mut self)
        requires
            old(self).wf(),
        ensures
            final(self).wf(),
            final(self).fade_frames() == old(self).fade_frames(),
            final(self).slots().len() == old(self).slots().len(),
            forall|i: int| 0 <= i < old(self).slots().len() ==> #[trigger] final(self).slots()[i] == (StopDeclickerState {
                frames_left: 0,
                channels: old(self).slots()[i].channels,
            }),
    {
        let ghost s0 = self.slots@;
        let mut i: usize = 0;
        while i < self.slots.len()
            invariant
                i <= self.slots@.len(),
                self.slots@.len() == s0.len(),
                self.fade_out_frames == old(self).fade_out_frames,
                self.fade_out_frames > 0,
                forall|j: int| 0 <= j < s0.len() ==> (#[trigger] s0[j]).frames_left <= self.fade_out_frames,
                forall|j: int| 0 <= j < i ==> #[trigger] self.slots@[j] == (StopDeclickerState { frames_left: 0, channels: s0[j].channels }),
                forall|j: int| i <= j < s0.len() ==> #[trigger] self.slots@[j] == s0[j],
            decreases s0.len() - i,
        {
            let c = self.slots[i].channels;
            self.slots.set(i, StopDeclickerState { frames_left: 0, channels: c });
            i = i + 1;
        }
        self.num_active = 0;
        proof {
            assert forall|j: int| 0 <= j < self.slots@.len() implies (#[trigger] self.slots@[j]).frames_left == 0 by {}
            lemma_count_zero(self.slots@);
        }
    }
}

proof fn lemma_count_zero(s: Seq<StopDeclickerState>)
    requires
        forall|j: int| 0 <= j < s.len() ==> (#[trigger] s[j]).frames_left == 0,
    ensures
        count_active(s) == 0,
    decreases s.len(),
{
    if s.len() > 0 {
        let d = s.drop_last();
        assert forall|j: int| 0 <= j < d.len() implies (#[trigger] d[j]).frames_left == 0 by {
            assert(d[j] == s[j]);
        }
        lemma_count_zero(d);
    }
}

/// What the sampler keeps of a loaded sample, besides its audio and gain:
/// its length, its channel count, whether its one channel is played on two
/// outputs, and where playback stands.
#[derive(Debug, Clone, Copy, PartialEq, Eq, Structural)]
pub struct LoadedSample {
    pub sample_len_frames: u64,
    pub sample_num_channels: usize,
    pub sample_mono_to_stereo: bool,
    pub playhead_frames: u64,
    pub num_times_looped_back: u64,
}

impl LoadedSample {
    /// A sample just loaded, played from its start. A mono sample is played
    /// on two outputs where the node asks for it (`mono_to_stereo`) and has
    /// more than one output.
    pub fn new(sample_len_frames: u64, sample_num_channels: usize, mono_to_stereo: bool, num_out_channels: usize) -> (r: LoadedSample)
        ensures
            r == (LoadedSample {
                sample_len_frames,
                sample_num_channels,
                sample_mono_to_stereo: mono_to_stereo && num_out_channels > 1 && sample_num_channels == 1,
                playhead_frames: 0,
                num_times_looped_back: 0,
            }),
    {
        LoadedSample {
            sample_len_frames,
            sample_num_channels,
            sample_mono_to_stereo: mono_to_stereo && num_out_channels > 1 && sample_num_channels == 1,
            playhead_frames: 0,
            num_times_looped_back: 0,
        }
    }

    /// Plans the copy of `range_start..range_end` from the playhead (see
    /// `plan_sample_copy`) and moves the playhead and loop count on.
    pub fn copy_from_sample(&mut self, range_start: usize, range_end: usize, looping: bool, num_buffers: usize) -> (r: SampleCopyPlan)
        requires
            range_start <= range_end,
            old(self).playhead_frames <= old(self).sample_len_frames,
            old(self).playhead_frames + (range_end - range_start) <= u64::MAX,
            old(self).num_times_looped_back + (range_end - range_start) <= u64::MAX,
            looping && old(self).playhead_frames + (range_end - range_start) > old(self).sample_len_frames
                ==> old(self).sample_len_frames > 0,
        ensures
            sample_copy_plan(
                r,
                old(self).playhead_frames,
                old(self).sample_len_frames,
                old(self).num_times_looped_back,
                range_start,
                range_end,
                looping,
                num_buffers,
                old(self).sample_num_channels,
            ),
            *final(self) == (LoadedSample {
                playhead_frames: r.playhead_frames,
                num_times_looped_back: r.num_times_looped_back,
                ..*old(self)
            }),
    {
        let r = plan_sample_copy(
            self.playhead_frames,
            self.sample_len_frames,
            self.num_times_looped_back,
            range_start,
            range_end,
            looping,
            num_buffers,
            self.sample_num_channels,
        );
        self.playhead_frames = r.playhead_frames;
        self.num_times_looped_back = r.num_times_looped_back;
        r
    }

    /// Rewinds playback to the start of the sample.
    pub fn rewind(&mut self)
        ensures
            *final(self) == (LoadedSample { playhead_frames: 0, num_times_looped_back: 0, ..*old(self) }),
    {
        self.playhead_frames = 0;
        self.num_times_looped_back = 0;
    }

    /// How many output channels hold sample data once `channels_filled`
    /// were filled from the sample: two where a mono sample is played on two
    /// outputs (its channel is copied to the second output).
    pub fn channels_after_copy(&self, channels_filled: usize) -> (r: usize)
        ensures
            r == (if self.sample_mono_to_stereo { 2 } else { channels_filled }),
    {
        if self.sample_mono_to_stereo {
            2
        } else {
            channels_filled
        }
    }
}

/// How many output channels the sampler fills: none without a sample, two
/// for a mono sample played on two outputs, else as many as both the
/// sample and the outputs have.
pub fn num_channels_filled(sample: &Option<LoadedSample>, num_out_channels: usize) -> (r: usize)
    ensures
        r == match *sample {
            None => 0,
            Some(s) => if s.sample_mono_to_stereo { 2 } else { min_usize(s.sample_num_channels, num_out_channels) },
        },
{
    match sample {
        Some(s) => if s.sample_mono_to_stereo {
            2
        } else if s.sample_num_channels < num_out_channels {
            s.sample_num_channels
        } else {
            num_out_channels
        },
        None => 0,
    }
}

/// Whether the sampler has sound of its sample to produce: it has a sample
/// and is playing, or is paused while still fading out.
pub fn currently_processing_sample(has_sample: bool, playing: bool, paused: bool, declick_settled: bool) -> (r: bool)
    ensures
        r == (has_sample && (playing || (paused && !declick_settled))),
{
    if !has_sample {
        false
    } else {
        playing || (paused && !declick_settled)
    }
}

proof fn lemma_and_not(a: u64, b: u64)
    by (bit_vector)
    ensures
        forall|j: u64| #![trigger ((a & !b) >> j)] j < 64 ==> ((((a & !b) >> j) & 1u64 == 1u64) == (((a >> j) & 1u64 == 1u64)
            && !((b >> j) & 1u64 == 1u64))),
{
}

/// The silence mask of a sampler's outputs: the outputs from
/// `num_filled_channels` up to `num_out_channels` are silent.
pub fn unfilled_silence_mask(num_filled_channels: usize, num_out_channels: usize) -> (r: u64)
    ensures
        forall|j: int| 0 <= j < 64 ==> #[trigger] mask_bit(r, j) == (num_filled_channels <= j && j < num_out_channels),
{
    if num_filled_channels >= num_out_channels {
        proof {
            lemma_mask_zero();
        }
        0
    } else {
        let all = all_channels_mask(num_out_channels);
        let filled = all_channels_mask(num_filled_channels);
        proof {
            lemma_channels_below(num_out_channels);
            lemma_channels_below(num_filled_channels);
            lemma_and_not(all, filled);
            assert forall|j: int| 0 <= j < 64 implies #[trigger] mask_bit(all & !filled, j) == (num_filled_channels <= j
                && j < num_out_channels) by {
                let ju = j as u64;
                assert(ju as int == j);
                assert(mask_bit(all, j) == (j < num_out_channels));
                assert(mask_bit(filled, j) == (j < num_filled_channels));
            }
        }
        all & !filled
    }
}

/// Records in the shared processor state the outcome of a block of
/// `frames` frames of playback that left the playhead at `playhead_frames`:
/// a finished playback is marked stopped, with `play_id` as the last one
/// that finished; one that goes on has aged by the block (saturating).
pub fn record_played_block(
    state: &mut CurrentProcessorState,
    playhead_frames: u64,
    finished: bool,
    play_id: PlaybackID,
    frames: usize,
)
    ensures
        finished ==> *final(state) == (CurrentProcessorState {
            playhead_frames,
            playback_state: PlaybackState::Stopped,
            last_finished_playback_id: play_id,
            ..*old(state)
        }),
        !finished ==> *final(state) == (CurrentProcessorState {
            playhead_frames,
            age_frames: if old(state).age_frames + frames > u64::MAX {
                u64::MAX
            } else {
                (old(state).age_frames + frames) as u64
            },
            ..*old(state)
        }),
{
    state.playhead_frames = playhead_frames;
    if finished {
        state.playback_state = PlaybackState::Stopped;
        state.last_finished_playback_id = play_id;
    } else {
        let f = frames as u64;
        state.age_frames = if state.age_frames > u64::MAX - f {
            u64::MAX
        } else {
            state.age_frames + f
        };
    }
}

/// A plan of `plan_sample_copy` reads only frames inside the sample, and
/// its copies follow one another without gap or overlap from the start of
/// the range up to where the sample ended without looping (or to the end
/// of the range).
pub proof fn law_sample_copies_tile_the_range(
    r: SampleCopyPlan,
    playhead_frames: u64,
    sample_len_frames: u64,
    num_times_looped_back: u64,
    range_start: usize,
    range_end: usize,
    looping: bool,
    num_buffers: usize,
    sample_num_channels: usize,
)
    requires
        range_start <= range_end,
        playhead_frames <= sample_len_frames,
        sample_copy_plan(
            r,
            playhead_frames,
            sample_len_frames,
            num_times_looped_back,
            range_start,
            range_end,
            looping,
            num_buffers,
            sample_num_channels,
        ),
    ensures
        forall|i: int| 0 <= i < r.copies@.len() ==> (#[trigger] r.copies@[i]).sample_start + r.copies@[i].frames <= sample_len_frames,
        r.copies@.len() > 0 ==> r.copies@[0].buffer_start == range_start,
        forall|i: int| 0 < i < r.copies@.len() ==> (#[trigger] r.copies@[i]).buffer_start == r.copies@[i - 1].buffer_start
            + r.copies@[i - 1].frames,
        ({
            let end = match r.zero_from {
                Some(z) => z as int,
                None => range_end as int,
            };
            &&& range_start <= end <= range_end
            &&& if r.copies@.len() > 0 {
                r.copies@.last().buffer_start + r.copies@.last().frames == end
            } else {
                end == range_start
            }
        }),
{
    let first = first_copy_frames(playhead_frames, sample_len_frames, range_end - range_start);
    let off: int = if first > 0 { 1 } else { 0 };
    let c = r.copies@;
    assert forall|i: int| 0 <= i < c.len() implies (#[trigger] c[i]).sample_start + c[i].frames <= sample_len_frames by {
        if i < off {
            assert(i == 0);
        }
    }
    if c.len() > 0 && off == 0 {
        assert(c[0].buffer_start == range_start + first);
    }
    assert forall|i: int| 0 < i < c.len() implies (#[trigger] c[i]).buffer_start == c[i - 1].buffer_start + c[i - 1].frames by {
        if i == off {
            assert(i == 1);
            assert(c[0].buffer_start + c[0].frames == range_start + first);
        }
    }
}

/// What a request to play does to the playhead.
#[derive(Debug, Clone, Copy, PartialEq, Eq, Structural)]
pub enum SeekPlan {
    /// Playback resumes while it is already playing: nothing changes.
    AlreadyPlaying,
    /// Playback resumes with no sample loaded: nothing changes.
    NoSample,
    /// Playback from a given position with no sample loaded: the time of the
    /// request is kept for when a sample is loaded.
    Queue,
    /// Playback goes on from `playhead`; where the playhead moves, what was
    /// playing is stopped first (`stop_first`). `finished` where the playhead
    /// is at the end of the sample, so that playback ends at once.
    Seek { stop_first: bool, playhead: u64, finished: bool },
}

/// Decides where a request to play puts the playhead. Resuming goes on from
/// the playhead; playing from a position restarts the loop count there.
/// Where the request came `delay_frames` late, the playhead moves on by as
/// much; past the end of the sample it wraps as the repeat mode allows (see
/// `resolve_playhead`). A playhead that moves stops what was playing, which
/// also resets the loop count; where it stays, the loop count is kept.
pub fn seek_for_play(
    sample: &mut Option<LoadedSample>,
    resume: bool,
    already_playing: bool,
    play_from_frames: u64,
    delay_frames: u64,
    repeat_mode: RepeatMode,
) -> (r: SeekPlan)
    requires
        *old(sample) matches Some(s) ==> {
            let at = if resume { s.playhead_frames } else { play_from_frames };
            let loops = if resume { s.num_times_looped_back } else { 0 };
            &&& at + delay_frames <= u64::MAX
            &&& at + delay_frames >= s.sample_len_frames && !(repeat_mode is PlayOnce) ==> s.sample_len_frames > 0
            &&& s.sample_len_frames > 0 ==> loops + ((at + delay_frames) as u64) / s.sample_len_frames <= u64::MAX
        },
    ensures
        resume && already_playing ==> r == SeekPlan::AlreadyPlaying && *final(sample) == *old(sample),
        !(resume && already_playing) && (*old(sample)) is None ==> *final(sample) == *old(sample) && r == (if resume {
            SeekPlan::NoSample
        } else {
            SeekPlan::Queue
        }),
        !(resume && already_playing) && (*old(sample)) is Some ==> {
            let s = (*old(sample))->0;
            let at = if resume { s.playhead_frames } else { play_from_frames };
            let loops = if resume { s.num_times_looped_back } else { 0 };
            let (p, l) = resolved_playhead(repeat_mode, (at + delay_frames) as u64, s.sample_len_frames, loops);
            &&& r == (SeekPlan::Seek { stop_first: p != s.playhead_frames, playhead: p, finished: p == s.sample_len_frames })
            &&& *final(sample) == Some(LoadedSample {
                playhead_frames: p,
                num_times_looped_back: if p != s.playhead_frames { 0 } else { l },
                ..s
            })
        },
{
    if resume && already_playing {
        return SeekPlan::AlreadyPlaying;
    }
    match sample {
        None => if resume {
            SeekPlan::NoSample
        } else {
            SeekPlan::Queue
        },
        Some(s) => {
            let at = if resume {
                s.playhead_frames
            } else {
                play_from_frames
            };
            let loops = if resume {
                s.num_times_looped_back
            } else {
                0
            };
            let prev = s.playhead_frames;
            let (p, l) = resolve_playhead(repeat_mode, at + delay_frames, s.sample_len_frames, loops);
            let moved = p != prev;
            s.playhead_frames = p;
            s.num_times_looped_back = if moved {
                0
            } else {
                l
            };
            SeekPlan::Seek { stop_first: moved, playhead: p, finished: p == s.sample_len_frames }
        },
    }
}

/// The fade a playback that starts at `playhead_frames` begins with: it
/// fades in where it starts inside the sample, or where fades of stopped
/// playbacks are under way and seeking crossfades; from the start of the
/// sample it plays at once.
pub open spec fn seek_fade(playhead_frames: u64, stop_fades_active: bool, crossfade_on_seek: bool, fade_frames: usize) -> DeclickState {
    if playhead_frames != 0 || (stop_fades_active && crossfade_on_seek) {
        DeclickState::FadingTo1 { frames_left: fade_frames }
    } else {
        DeclickState::SettledAt1
    }
}

/// A playback that starts inside the sample (at a playhead other than 0)
/// always fades in over a whole fade, whatever fades of stopped playbacks
/// are under way and whether seeking crossfades. One that starts at the
/// beginning fades in only where fades of stopped playbacks are under way
/// and seeking crossfades; otherwise it plays at once, at full gain.
pub proof fn law_seek_fade(playhead_frames: u64, stop_fades_active: bool, crossfade_on_seek: bool, fade_frames: usize)
    ensures
        playhead_frames != 0 ==> seek_fade(playhead_frames, stop_fades_active, crossfade_on_seek, fade_frames)
            == (DeclickState::FadingTo1 { frames_left: fade_frames }),
        playhead_frames == 0 && stop_fades_active && crossfade_on_seek ==> seek_fade(
            playhead_frames,
            stop_fades_active,
            crossfade_on_seek,
            fade_frames,
        ) == (DeclickState::FadingTo1 { frames_left: fade_frames }),
        playhead_frames == 0 && !(stop_fades_active && crossfade_on_seek) ==> seek_fade(
            playhead_frames,
            stop_fades_active,
            crossfade_on_seek,
            fade_frames,
        ) == DeclickState::SettledAt1,
{
}

/// Computes [`seek_fade`].
pub fn fade_for_seek(playhead_frames: u64, stop_fades_active: bool, crossfade_on_seek: bool, fade_frames: usize) -> (r: DeclickState)
    ensures
        r == seek_fade(playhead_frames, stop_fades_active, crossfade_on_seek, fade_frames),
        playhead_frames != 0 ==> r == (DeclickState::FadingTo1 { frames_left: fade_frames }),
        playhead_frames == 0 ==> r == (if stop_fades_active && crossfade_on_seek {
            DeclickState::FadingTo1 { frames_left: fade_frames }
        } else {
            DeclickState::SettledAt1
        }),
{
    if playhead_frames != 0 || (stop_fades_active && crossfade_on_seek) {
        let mut d = DeclickState::SettledAt0;
        d.fade_to_1(fade_frames);
        d
    } else {
        DeclickState::SettledAt1
    }
}

/// Records a new play, pause or stop request in the shared processor
/// state: the current playback counts as the last finished one, the
/// request's playback ID becomes the current one and its age starts at 0.
pub fn begin_playback_request(state: &mut CurrentProcessorState, playback_id: PlaybackID)
    ensures
        *final(state) == (CurrentProcessorState {
            last_finished_playback_id: old(state).playback_id,
            playback_id,
            age_frames: 0,
            ..*old(state)
        }),
{
    state.last_finished_playback_id = state.playback_id;
    state.playback_id = playback_id;
    state.age_frames = 0;
}

/// The playback state a sampler reports.
pub open spec fn playback_state_for(playing: bool, paused: bool) -> PlaybackState {
    if playing {
        PlaybackState::Playing
    } else if paused {
        PlaybackState::Paused
    } else {
        PlaybackState::Stopped
    }
}

/// Computes [`playback_state_for`].
pub fn playback_state_of(playing: bool, paused: bool) -> (r: PlaybackState)
    ensures
        r == playback_state_for(playing, paused),
{
    if playing {
        PlaybackState::Playing
    } else if paused {
        PlaybackState::Paused
    } else {
        PlaybackState::Stopped
    }
}

/// What a sampler keeps between blocks to answer play, pause and stop
/// requests: whether it plays or is paused, whether it has yet to process
/// its first block, what it reports of its playback, the loaded sample and
/// where it stands, the fade of its playback, the fades of stopped
/// playbacks, the delay of a play request that came before a sample was
/// loaded, and how many outputs it has.
pub struct SamplerRequestState {
    pub playing: bool,
    pub paused: bool,
    pub is_first_process: bool,
    pub state: CurrentProcessorState,
    pub loaded: Option<LoadedSample>,
    pub declicker: DeclickState,
    pub stop_declickers: StopDeclickers,
    pub queued_delay_frames: Option<u64>,
    pub num_out_channels: usize,
}

/// The fade-out of what was playing when playback stopped: the caller
/// renders it into the buffers of fade slot `slot`, from the sample as it
/// stood (`loaded`) and under the fade `declicker`.
#[derive(Debug, Clone, Copy, PartialEq, Eq, Structural)]
pub struct StopTail {
    pub slot: usize,
    pub loaded: LoadedSample,
    pub declicker: DeclickState,
}

/// What the caller does once a request has been answered: render the
/// fade-out of what was playing, where one was started.
#[derive(Debug, Clone, Copy, PartialEq, Eq, Structural)]
pub struct RequestAction {
    pub stop_tail: Option<StopTail>,
}

/// The sample rewound to its start.
pub open spec fn rewound(sample: Option<LoadedSample>) -> Option<LoadedSample> {
    match sample {
        Some(l) => Some(LoadedSample { playhead_frames: 0, num_times_looped_back: 0, ..l }),
        None => None,
    }
}

/// How many output channels a sampler fills (see [`num_channels_filled`]).
pub open spec fn channels_filled_by(sample: Option<LoadedSample>, num_out_channels: usize) -> usize {
    match sample {
        None => 0,
        Some(s) => if s.sample_mono_to_stereo { 2 } else { min_usize(s.sample_num_channels, num_out_channels) },
    }
}

/// Whether the sampler has sound of its sample to produce (see
/// [`currently_processing_sample`]).
pub open spec fn is_processing(st: SamplerRequestState) -> bool {
    st.loaded is Some && (st.playing || (st.paused && !settled(st.declicker)))
}

/// The fade slot of a fade-out, if any.
pub open spec fn tail_slot(t: Option<StopTail>) -> Option<usize> {
    match t {
        Some(t) => Some(t.slot),
        None => None,
    }
}

/// `after` is `before` once a fade over `channels` channels was asked for
/// (see [`StopDeclickers::start`]): it went to the first idle slot, `slot`,
/// where there was one.
pub open spec fn fade_started(before: StopDeclickers, after: StopDeclickers, channels: usize, slot: Option<usize>) -> bool {
    &&& after.fade_frames() == before.fade_frames()
    &&& (slot is Some <==> count_active(before.slots()) < before.slots().len())
    &&& slot is None ==> after.slots() == before.slots()
    &&& slot matches Some(i) ==> {
        &&& i < before.slots().len()
        &&& before.slots()[i as int].frames_left == 0
        &&& forall|j: int| 0 <= j < i ==> (#[trigger] before.slots()[j]).frames_left != 0
        &&& after.slots() == before.slots().update(
            i as int,
            StopDeclickerState { frames_left: before.fade_frames(), channels },
        )
    }
}

/// What stopping playback does: where the sampler had sound to produce,
/// its fade turns towards 0 and what was playing fades out in the first
/// idle fade slot (`tail`, where there was one); the sample is rewound to
/// its start and the fade of playback settles on. Nothing else changes.
pub open spec fn stop_outcome(before: SamplerRequestState, after: SamplerRequestState, declick_frames: usize, tail: Option<StopTail>) -> bool {
    &&& after == SamplerRequestState {
        loaded: rewound(before.loaded),
        declicker: DeclickState::SettledAt1,
        stop_declickers: after.stop_declickers,
        ..before
    }
    &&& after.stop_declickers.wf()
    &&& if is_processing(before) {
        &&& fade_started(
            before.stop_declickers,
            after.stop_declickers,
            channels_filled_by(before.loaded, before.num_out_channels),
            tail_slot(tail),
        )
        &&& tail matches Some(t) ==> t.loaded == before.loaded->0 && t.declicker == faded_to_0(
            before.declicker,
            declick_frames,
        )
    } else {
        tail is None && after.stop_declickers == before.stop_declickers
    }
}

/// Stops playback (see [`stop_outcome`]), with fades of `declick_frames`
/// frames. Returns the fade-out for the caller to render, if one was
/// started.
pub fn stop_playback(st: &mut SamplerRequestState, declick_frames: usize) -> (r: Option<StopTail>)
    requires
        old(st).stop_declickers.wf(),
    ensures
        stop_outcome(*old(st), *final(st), declick_frames, r),
{
    let processing = currently_processing_sample(st.loaded.is_some(), st.playing, st.paused, st.declicker.has_settled());
    let mut tail: Option<StopTail> = None;
    if processing {
        st.declicker.fade_to_0(declick_frames);
        let channels = num_channels_filled(&st.loaded, st.num_out_channels);
        match st.stop_declickers.start(channels) {
            Some(slot) => {
                match st.loaded {
                    Some(l) => {
                        tail = Some(StopTail { slot, loaded: l, declicker: st.declicker });
                    },
                    None => {},
                }
            },
            None => {},
        }
    }
    st.loaded = match st.loaded {
        Some(l) => {
            let mut l2 = l;
            l2.rewind();
            Some(l2)
        },
        None => None,
    };
    st.declicker = DeclickState::SettledAt1;
    tail
}

/// How a sampler's block begins: with nothing to produce and no fade-out
/// under way it clears all its outputs; otherwise it processes the block,
/// rendering from its sample where it has sound of it to produce.
#[derive(Debug, Clone, Copy, PartialEq, Eq, Structural)]
pub enum SamplerBlockStart {
    ClearAllOutputs,
    Process { render_sample: bool },
}

/// Decides how a sampler's block begins (see [`SamplerBlockStart`]).
pub fn start_sampler_block(st: &SamplerRequestState) -> (r: SamplerBlockStart)
    requires
        st.stop_declickers.wf(),
    ensures
        r == (if !is_processing(*st) && count_active(st.stop_declickers.slots()) == 0 {
            SamplerBlockStart::ClearAllOutputs
        } else {
            SamplerBlockStart::Process { render_sample: is_processing(*st) }
        }),
{
    let processing = currently_processing_sample(st.loaded.is_some(), st.playing, st.paused, st.declicker.has_settled());
    if !processing && st.stop_declickers.num_active() == 0 {
        SamplerBlockStart::ClearAllOutputs
    } else {
        SamplerBlockStart::Process { render_sample: processing }
    }
}

/// Records a block of `frames` frames rendered from the sample (see
/// [`record_played_block`], with the current playback and the playhead of
/// the loaded sample); a playback that `finished` stops playing.
pub fn record_rendered_block(st: &mut SamplerRequestState, finished: bool, frames: usize)
    ensures
        ({
            let playhead = match old(st).loaded {
                Some(l) => l.playhead_frames,
                None => 0,
            };
            let s0 = old(st).state;
            &&& final(st).state == (if finished {
                CurrentProcessorState {
                    playhead_frames: playhead,
                    playback_state: PlaybackState::Stopped,
                    last_finished_playback_id: s0.playback_id,
                    ..s0
                }
            } else {
                CurrentProcessorState {
                    playhead_frames: playhead,
                    age_frames: if s0.age_frames + frames > u64::MAX {
                        u64::MAX
                    } else {
                        (s0.age_frames + frames) as u64
                    },
                    ..s0
                }
            })
            &&& *final(st) == (SamplerRequestState {
                playing: if finished { false } else { old(st).playing },
                state: final(st).state,
                ..*old(st)
            })
        }),
{
    let playhead = match st.loaded {
        Some(l) => l.playhead_frames,
        None => 0,
    };
    let play_id = st.state.playback_id;
    record_played_block(&mut st.state, playhead, finished, play_id, frames);
    if finished {
        st.playing = false;
    }
}

/// Which of a sampler's `num_outputs` outputs it zeroes once it filled the
/// first `filled` with sample data: every later one not marked silent in
/// `out_silence_mask` (outputs past the 64 the mask covers are always
/// zeroed).
pub fn sampler_outputs_to_clear(num_outputs: usize, filled: usize, out_silence_mask: u64) -> (r: Vec<bool>)
    ensures
        r@.len() == num_outputs,
        forall|j: int| 0 <= j < num_outputs ==> #[trigger] r@[j] == (j >= filled && (j >= 64 || !mask_bit(out_silence_mask, j))),
{
    let mut r: Vec<bool> = Vec::with_capacity(num_outputs);
    let mut j: usize = 0;
    while j < num_outputs
        invariant
            j <= num_outputs,
            r@.len() == j,
            forall|k: int| 0 <= k < j ==> #[trigger] r@[k] == (k >= filled && (k >= 64 || !mask_bit(out_silence_mask, k))),
        decreases num_outputs - j,
    {
        let clear = if j < filled {
            false
        } else if j >= 64 {
            true
        } else {
            (out_silence_mask >> (j as u64)) & 1u64 != 1u64
        };
        r.push(clear);
        j += 1;
    }
    r
}

/// The status a sampler reports for a block it processed: its outputs are
/// written, and those from `num_filled_channels` (the widest of what it
/// filled from the sample and the fade-outs mixed in) up to
/// `num_out_channels` are silent.
pub fn sampler_block_status(num_filled_channels: usize, num_out_channels: usize) -> (r: ProcessStatus)
    ensures
        r matches ProcessStatus::OutputsModifiedWithSilenceMask(m) && forall|j: int|
            0 <= j < 64 ==> #[trigger] mask_bit(m, j) == (num_filled_channels <= j && j < num_out_channels),
{
    ProcessStatus::OutputsModifiedWithSilenceMask(unfilled_silence_mask(num_filled_channels, num_out_channels))
}

/// Takes a new sample, or none: what was playing stops (see
/// [`stop_outcome`]), the new sample takes the old one's place, and the
/// reported state says whether there is one. Returns the fade-out of what
/// was playing for the caller to render, if one was started.
pub fn change_sample(st: &mut SamplerRequestState, sample: Option<LoadedSample>, declick_frames: usize) -> (r: Option<StopTail>)
    requires
        old(st).stop_declickers.wf(),
    ensures
        stop_outcome(
            *old(st),
            SamplerRequestState { loaded: rewound(old(st).loaded), state: old(st).state, ..*final(st) },
            declick_frames,
            r,
        ),
        final(st).loaded == sample,
        final(st).state == (CurrentProcessorState { has_sample_resource: sample is Some, ..old(st).state }),
{
    let tail = stop_playback(st, declick_frames);
    st.loaded = sample;
    st.state.has_sample_resource = sample.is_some();
    tail
}

/// What a request does to the sampler: playing (`play`), else pausing
/// (`resume`, so that playback later goes on from where it is) or stopping.
/// Every request is recorded as the current playback and the sampler has
/// processed its first request; the reported playback state follows the
/// playing and paused flags.
///
/// - Playing where playback resumes while already playing changes nothing
///   more. Without a sample, playing from a position keeps the delay of the
///   request for when a sample is loaded. Otherwise the playhead goes where
///   [`seek_for_play`] puts it; where it moves, what was playing is stopped
///   first, and the reported playhead follows. A playhead at the end of the
///   sample ends playback at once: the request counts as finished. Else
///   playback fades in as [`seek_fade`] says, given the fades of stopped
///   playbacks under way.
/// - Pausing keeps the playhead and fades playback out.
/// - Stopping stops playback (see [`stop_outcome`]) and the request counts
///   as finished.
pub open spec fn request_outcome(
    before: SamplerRequestState,
    after: SamplerRequestState,
    play: bool,
    resume: bool,
    play_from_frames: u64,
    delay_frames: u64,
    playback_id: PlaybackID,
    repeat_mode: RepeatMode,
    crossfade_on_seek: bool,
    declick_frames: usize,
    r: RequestAction,
) -> bool {
    let begun = CurrentProcessorState {
        last_finished_playback_id: before.state.playback_id,
        playback_id,
        age_frames: 0,
        ..before.state
    };
    let m = SamplerRequestState { is_first_process: false, paused: false, state: begun, ..before };
    let already_playing = before.playing && !before.is_first_process;
    &&& after.stop_declickers.wf()
    &&& after.state.playback_state == playback_state_for(after.playing, after.paused)
    &&& if play {
        if resume && already_playing {
            &&& r.stop_tail is None
            &&& after == SamplerRequestState {
                playing: true,
                queued_delay_frames: None,
                state: CurrentProcessorState { playback_state: PlaybackState::Playing, ..begun },
                ..m
            }
        } else {
            match before.loaded {
                None => {
                    &&& r.stop_tail is None
                    &&& after == SamplerRequestState {
                        playing: true,
                        queued_delay_frames: if resume { before.queued_delay_frames } else { Some(delay_frames) },
                        state: CurrentProcessorState { playback_state: PlaybackState::Playing, ..begun },
                        ..m
                    }
                },
                Some(s) => {
                    let at = if resume { s.playhead_frames } else { play_from_frames };
                    let loops = if resume { s.num_times_looped_back } else { 0 };
                    let (p, l) = resolved_playhead(repeat_mode, (at + delay_frames) as u64, s.sample_len_frames, loops);
                    let moved = p != s.playhead_frames;
                    let finished = p == s.sample_len_frames;
                    let declicker_after_stop = if moved { DeclickState::SettledAt1 } else { before.declicker };
                    &&& if moved {
                        stop_outcome(
                            m,
                            SamplerRequestState {
                                loaded: rewound(m.loaded),
                                declicker: DeclickState::SettledAt1,
                                stop_declickers: after.stop_declickers,
                                ..m
                            },
                            declick_frames,
                            r.stop_tail,
                        )
                    } else {
                        r.stop_tail is None && after.stop_declickers == before.stop_declickers
                    }
                    &&& after == SamplerRequestState {
                        playing: !finished,
                        loaded: Some(LoadedSample {
                            playhead_frames: p,
                            num_times_looped_back: if moved { 0 } else { l },
                            ..s
                        }),
                        declicker: if finished {
                            declicker_after_stop
                        } else {
                            seek_fade(p, count_active(after.stop_declickers.slots()) > 0, crossfade_on_seek, declick_frames)
                        },
                        stop_declickers: after.stop_declickers,
                        queued_delay_frames: None,
                        state: CurrentProcessorState {
                            playhead_frames: if moved || finished { p } else { begun.playhead_frames },
                            last_finished_playback_id: if finished { playback_id } else { begun.last_finished_playback_id },
                            playback_state: if finished { PlaybackState::Stopped } else { PlaybackState::Playing },
                            ..begun
                        },
                        ..m
                    }
                },
            }
        }
    } else if resume {
        &&& r.stop_tail is None
        &&& after == SamplerRequestState {
            playing: false,
            paused: true,
            declicker: faded_to_0(before.declicker, declick_frames),
            state: CurrentProcessorState { playback_state: PlaybackState::Paused, ..begun },
            ..m
        }
    } else {
        &&& stop_outcome(
            m,
            SamplerRequestState { playing: m.playing, state: m.state, ..after },
            declick_frames,
            r.stop_tail,
        )
        &&& after.playing == false
        &&& after.state == CurrentProcessorState {
            last_finished_playback_id: playback_id,
            playback_state: PlaybackState::Stopped,
            ..begun
        }
    }
}

/// A request to play that puts the playhead inside the sample (neither at
/// its start nor at its end) starts playback fading in over a whole fade,
/// whatever fades of stopped playbacks are under way and whether seeking
/// crossfades; unless playback was already playing and simply resumes.
pub proof fn law_play_inside_the_sample_fades_in(
    before: SamplerRequestState,
    after: SamplerRequestState,
    resume: bool,
    play_from_frames: u64,
    delay_frames: u64,
    playback_id: PlaybackID,
    repeat_mode: RepeatMode,
    crossfade_on_seek: bool,
    declick_frames: usize,
    r: RequestAction,
)
    requires
        request_outcome(
            before,
            after,
            true,
            resume,
            play_from_frames,
            delay_frames,
            playback_id,
            repeat_mode,
            crossfade_on_seek,
            declick_frames,
            r,
        ),
        !(resume && before.playing && !before.is_first_process),
        before.loaded matches Some(s) && after.loaded matches Some(l) && l.playhead_frames != 0 && l.playhead_frames
            != s.sample_len_frames,
    ensures
        after.playing,
        after.declicker == (DeclickState::FadingTo1 { frames_left: declick_frames }),
{
    let s = before.loaded->0;
    let at = if resume { s.playhead_frames } else { play_from_frames };
    let loops = if resume { s.num_times_looped_back } else { 0 };
    let (p, l) = resolved_playhead(repeat_mode, (at + delay_frames) as u64, s.sample_len_frames, loops);
    law_seek_fade(p, count_active(after.stop_declickers.slots()) > 0, crossfade_on_seek, declick_frames);
}

/// Answers a request to play, pause or stop (see [`request_outcome`]),
/// with fades of `declick_frames` frames. Returns the fade-out of what was
/// playing for the caller to render, where one was started.
pub fn plan_request(
    st: &mut SamplerRequestState,
    play: bool,
    resume: bool,
    play_from_frames: u64,
    delay_frames: u64,
    playback_id: PlaybackID,
    repeat_mode: RepeatMode,
    crossfade_on_seek: bool,
    declick_frames: usize,
) -> (r: RequestAction)
    requires
        old(st).stop_declickers.wf(),
        play ==> (old(st).loaded matches Some(s) ==> {
            let at = if resume { s.playhead_frames } else { play_from_frames };
            let loops = if resume { s.num_times_looped_back } else { 0 };
            &&& at + delay_frames <= u64::MAX
            &&& at + delay_frames >= s.sample_len_frames && !(repeat_mode is PlayOnce) ==> s.sample_len_frames > 0
            &&& s.sample_len_frames > 0 ==> loops + ((at + delay_frames) as u64) / s.sample_len_frames <= u64::MAX
        }),
    ensures
        request_outcome(
            *old(st),
            *final(st),
            play,
            resume,
            play_from_frames,
            delay_frames,
            playback_id,
            repeat_mode,
            crossfade_on_seek,
            declick_frames,
            r,
        ),
{
    let is_first_process = st.is_first_process;
    st.is_first_process = false;
    st.paused = false;
    begin_playback_request(&mut st.state, playback_id);
    let mut playing = play;
    let mut stop_tail: Option<StopTail> = None;
    if play {
        let already_playing = st.playing && !is_first_process;
        let mut loaded = st.loaded;
        match seek_for_play(&mut loaded, resume, already_playing, play_from_frames, delay_frames, repeat_mode) {
            SeekPlan::AlreadyPlaying => {
                st.queued_delay_frames = None;
            },
            SeekPlan::NoSample => {},
            SeekPlan::Queue => {
                st.queued_delay_frames = Some(delay_frames);
            },
            SeekPlan::Seek { stop_first, playhead, finished } => {
                if stop_first {
                    stop_tail = stop_playback(st, declick_frames);
                }
                st.loaded = loaded;
                if stop_first || finished {
                    st.state.playhead_frames = playhead;
                }
                if finished {
                    playing = false;
                    st.state.last_finished_playback_id = playback_id;
                } else {
                    let active = st.stop_declickers.num_active();
                    st.declicker = fade_for_seek(playhead, active > 0, crossfade_on_seek, declick_frames);
                }
                st.queued_delay_frames = None;
            },
        }
    } else if resume {
        st.declicker.fade_to_0(declick_frames);
        st.paused = true;
    } else {
        stop_tail = stop_playback(st, declick_frames);
        st.state.last_finished_playback_id = playback_id;
    }
    st.playing = playing;
    st.state.playback_state = playback_state_of(st.playing, st.paused);
    RequestAction { stop_tail }
}

} // verus!

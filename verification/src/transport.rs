//! The decisions of the audio thread's musical transport. Musical times
//! and their conversion to samples go through the transport's tempo map,
//! which the caller evaluates; here is what is decided from the results:
//! how a new transport state is taken over, whether a block loops back or
//! stops, and how far a block may run before the transport's end.
use vstd::prelude::*;

verus! {

/// How a new transport state is taken over.
#[derive(Debug, Clone, Copy, PartialEq, Eq, Structural)]
pub enum TransportChange {
    /// The transport starts over from the new state's playhead.
    Restart,
    /// The same transport resumes after a pause: its start moves on by the
    /// time it was paused.
    Resume,
    /// Another transport resumes from where the old one was paused.
    ResumeFromPause,
    /// Another transport takes over, playing on from the old one's current
    /// position.
    Continue,
    /// The transport pauses at the current position.
    Pause,
    /// Nothing changes in the transport's timing.
    Keep,
}

/// Decides how a new transport state is taken over. A new transport
/// starts over where there was none before or where the playhead was
/// moved; otherwise a playing transport resumes (where it was paused) or
/// hands over (where the transport changed), and a transport that stops
/// playing pauses.
pub fn transport_change(
    new_has_transport: bool,
    old_has_transport: bool,
    playhead_changed: bool,
    new_playing: bool,
    old_playing: bool,
    same_transport: bool,
) -> (r: TransportChange)
    ensures
        r == (if !new_has_transport {
            TransportChange::Keep
        } else if playhead_changed || !old_has_transport {
            TransportChange::Restart
        } else if new_playing {
            if !old_playing {
                if same_transport { TransportChange::Resume } else { TransportChange::ResumeFromPause }
            } else if !same_transport {
                TransportChange::Continue
            } else {
                TransportChange::Keep
            }
        } else if old_playing {
            TransportChange::Pause
        } else {
            TransportChange::Keep
        }),
{
    if !new_has_transport {
        return TransportChange::Keep;
    }
    if playhead_changed || !old_has_transport {
        return TransportChange::Restart;
    }
    if new_playing {
        if !old_playing {
            if same_transport {
                TransportChange::Resume
            } else {
                TransportChange::ResumeFromPause
            }
        } else if !same_transport {
            TransportChange::Continue
        } else {
            TransportChange::Keep
        }
    } else if old_playing {
        TransportChange::Pause
    } else {
        TransportChange::Keep
    }
}

/// The start of a transport resumed at `clock_samples` after it was
/// paused at `paused_at_clock_samples`: it moves on by the pause.
pub fn resumed_start(start_clock_samples: i64, clock_samples: i64, paused_at_clock_samples: i64) -> (r: i64)
    requires
        i64::MIN <= clock_samples - paused_at_clock_samples <= i64::MAX,
        i64::MIN <= start_clock_samples + (clock_samples - paused_at_clock_samples) <= i64::MAX,
    ensures
        r == start_clock_samples + (clock_samples - paused_at_clock_samples),
{
    start_clock_samples + (clock_samples - paused_at_clock_samples)
}

/// What a playing transport does at the start of a block.
#[derive(Debug, Clone, Copy, PartialEq, Eq, Structural)]
pub enum TransportBlockAction {
    /// It runs on.
    Run,
    /// It reached the end of its loop and starts the loop over.
    LoopBack,
    /// It reached the point where it stops.
    Stop,
}

/// Where a playing transport stands at `clock_samples`, given where its
/// loop ends (where it loops) or where it stops (where it stops, and does
/// not loop), both in samples.
pub fn transport_block_action(clock_samples: i64, loop_end: Option<i64>, stop_at: Option<i64>) -> (r: TransportBlockAction)
    ensures
        r == match loop_end {
            Some(e) => if clock_samples >= e { TransportBlockAction::LoopBack } else { TransportBlockAction::Run },
            None => match stop_at {
                Some(s) => if clock_samples >= s { TransportBlockAction::Stop } else { TransportBlockAction::Run },
                None => TransportBlockAction::Run,
            },
        },
{
    match loop_end {
        Some(e) => if clock_samples >= e {
            TransportBlockAction::LoopBack
        } else {
            TransportBlockAction::Run
        },
        None => match stop_at {
            Some(s) => if clock_samples >= s {
                TransportBlockAction::Stop
            } else {
                TransportBlockAction::Run
            },
            None => TransportBlockAction::Run,
        },
    }
}

/// How many of `frames` frames from `clock_samples` a block may run
/// before the transport reaches `end` (its loop end or stop point, where it
/// has one): all of them where the end is not within the block, else the
/// frames up to it (none where it has passed).
pub fn clamp_to_transport_end(frames: usize, clock_samples: i64, end: Option<i64>) -> (r: usize)
    requires
        frames <= i64::MAX,
        i64::MIN <= clock_samples + frames <= i64::MAX,
    ensures
        r == match end {
            Some(e) => if clock_samples + frames > e {
                if e - clock_samples > 0 { (e - clock_samples) as usize } else { 0 }
            } else {
                frames
            },
            None => frames,
        },
        r <= frames,
{
    match end {
        Some(e) => {
            let block_end = clock_samples + (frames as i64);
            if block_end > e {
                if e > clock_samples {
                    (e - clock_samples) as usize
                } else {
                    0
                }
            } else {
                frames
            }
        },
        None => frames,
    }
}

/// The frames of the next processing block: what is left of the stream's
/// frames, at most `max_block_frames`, and cut short where the playing
/// transport reaches `transport_end` (its loop end or stop point, in
/// samples) within the block. An end at or before the block's start does
/// not cut it: there the transport has looped back or stopped already.
pub fn next_block_frames(frames_left: usize, max_block_frames: usize, clock_samples: i64, transport_end: Option<i64>) -> (r: usize)
    requires
        frames_left <= i64::MAX,
        clock_samples + frames_left <= i64::MAX,
    ensures
        ({
            let block = if frames_left < max_block_frames { frames_left } else { max_block_frames };
            r == match transport_end {
                Some(e) => if clock_samples < e && e < clock_samples + block { (e - clock_samples) as usize } else { block },
                None => block,
            }
        }),
        r <= frames_left,
        r <= max_block_frames,
        0 < frames_left && 0 < max_block_frames ==> 0 < r,
{
    let block = if frames_left < max_block_frames {
        frames_left
    } else {
        max_block_frames
    };
    let end = match transport_end {
        Some(e) => if e > clock_samples {
            Some(e)
        } else {
            None
        },
        None => None,
    };
    clamp_to_transport_end(block, clock_samples, end)
}

/// A transport paused and resumed unchanged picks up where it paused: at
/// the moment it resumes, as many samples have passed since its (moved)
/// start as had passed when it paused.
pub proof fn law_resume_keeps_position(start_clock_samples: i64, clock_samples: i64, paused_at_clock_samples: i64)
    ensures
        clock_samples - (start_clock_samples + (clock_samples - paused_at_clock_samples))
            == paused_at_clock_samples - start_clock_samples,
{
}

} // verus!

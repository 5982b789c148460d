use firewheel::block_process::DeclickState;
use firewheel::nodes::{CurrentProcessorState, PlaybackID, PlaybackState, RepeatMode};
use firewheel::schedule::ProcessStatus;
use firewheel::sampler::{
    begin_playback_request, change_sample, currently_processing_sample, record_rendered_block, sampler_block_status,
    sampler_outputs_to_clear, start_sampler_block, SamplerBlockStart, fade_for_seek, num_channels_filled, plan_request,
    plan_sample_copy, playback_state_of, record_played_block, seek_for_play, stop_playback, unfilled_silence_mask,
    DeclickMix, LoadedSample, SampleCopy, SamplerRequestState, SeekPlan, StopDeclickers, StopTail,
};

fn copy(buffer_start: usize, frames: usize, sample_start: u64) -> SampleCopy {
    SampleCopy { buffer_start, frames, sample_start }
}

#[test]
fn a_block_inside_the_sample_is_one_copy() {
    let r = plan_sample_copy(2, 10, 0, 0, 4, false, 2, 1);
    assert_eq!(r.copies, vec![copy(0, 4, 2)]);
    assert_eq!(r.zero_from, None);
    assert!(!r.finished);
    assert_eq!(r.channels_filled, 1);
    assert_eq!(r.playhead_frames, 6);
    assert_eq!(r.num_times_looped_back, 0);
}

#[test]
fn the_end_of_a_sample_that_does_not_loop_is_zeroed() {
    let r = plan_sample_copy(8, 10, 0, 0, 5, false, 2, 2);
    assert_eq!(r.copies, vec![copy(0, 2, 8)]);
    assert_eq!(r.zero_from, Some(2));
    assert!(r.finished);
    assert_eq!(r.channels_filled, 2);
    assert_eq!(r.playhead_frames, 10);

    let r = plan_sample_copy(10, 10, 0, 0, 3, false, 2, 2);
    assert!(r.copies.is_empty());
    assert_eq!(r.zero_from, Some(0));
    assert!(r.finished);
}

#[test]
fn a_looping_sample_starts_over_as_often_as_needed() {
    let r = plan_sample_copy(8, 10, 0, 4, 29, true, 2, 2);
    assert_eq!(r.copies, vec![copy(4, 2, 8), copy(6, 10, 0), copy(16, 10, 0), copy(26, 3, 0)]);
    assert_eq!(r.zero_from, None);
    assert!(!r.finished);
    assert_eq!(r.playhead_frames, 3);
    assert_eq!(r.num_times_looped_back, 3);

    let r = plan_sample_copy(10, 10, 5, 0, 3, true, 1, 2);
    assert_eq!(r.copies, vec![copy(0, 3, 0)]);
    assert_eq!(r.playhead_frames, 3);
    assert_eq!(r.num_times_looped_back, 6);
    assert_eq!(r.channels_filled, 1);
}

#[test]
fn an_empty_range_copies_nothing() {
    let r = plan_sample_copy(10, 10, 0, 5, 5, false, 2, 2);
    assert!(r.copies.is_empty());
    assert!(!r.finished);
    assert_eq!(r.zero_from, None);
    assert_eq!(r.playhead_frames, 10);
}

#[test]
fn loaded_samples_track_their_playhead() {
    let mono = LoadedSample::new(10, 1, true, 2);
    assert!(mono.sample_mono_to_stereo);
    assert!(!LoadedSample::new(10, 2, true, 2).sample_mono_to_stereo);
    assert!(!LoadedSample::new(10, 1, true, 1).sample_mono_to_stereo);
    assert!(!LoadedSample::new(10, 1, false, 2).sample_mono_to_stereo);

    let mut s = LoadedSample::new(10, 2, false, 2);
    let r = s.copy_from_sample(0, 25, true, 2);
    assert_eq!(r.copies, vec![copy(0, 10, 0), copy(10, 10, 0), copy(20, 5, 0)]);
    assert_eq!(s.playhead_frames, 5);
    assert_eq!(s.num_times_looped_back, 2);
    s.rewind();
    assert_eq!(s.playhead_frames, 0);
    assert_eq!(s.num_times_looped_back, 0);
    assert_eq!(s.channels_after_copy(2), 2);
    assert_eq!(mono.channels_after_copy(1), 2);
}

#[test]
fn channels_filled_by_the_sampler() {
    assert_eq!(num_channels_filled(&None, 2), 0);
    assert_eq!(num_channels_filled(&Some(LoadedSample::new(10, 1, true, 2)), 2), 2);
    assert_eq!(num_channels_filled(&Some(LoadedSample::new(10, 6, true, 2)), 2), 2);
    assert_eq!(num_channels_filled(&Some(LoadedSample::new(10, 1, false, 2)), 2), 1);
}

#[test]
fn the_sampler_works_while_playing_or_fading_out() {
    assert!(!currently_processing_sample(false, true, false, true));
    assert!(currently_processing_sample(true, true, false, true));
    assert!(currently_processing_sample(true, false, true, false));
    assert!(!currently_processing_sample(true, false, true, true));
    assert!(!currently_processing_sample(true, false, false, false));
}

#[test]
fn unfilled_outputs_are_marked_silent() {
    assert_eq!(unfilled_silence_mask(1, 3), 0b110);
    assert_eq!(unfilled_silence_mask(3, 3), 0);
    assert_eq!(unfilled_silence_mask(5, 3), 0);
    assert_eq!(unfilled_silence_mask(0, 64), u64::MAX);
    assert_eq!(unfilled_silence_mask(2, 100), u64::MAX & !0b11);
}

#[test]
fn stop_fades_take_free_slots_and_run_out() {
    let mut d = StopDeclickers::new(3, 100);
    assert_eq!(d.num_active(), 0);
    assert_eq!(d.start(2), Some(0));
    assert_eq!(d.start(1), Some(1));
    assert_eq!(d.num_active(), 2);
    let (mixes, filled) = d.advance(30, 0);
    assert_eq!(
        mixes,
        vec![
            DeclickMix { slot: 0, start_frame: 0, frames: 30, channels: 2 },
            DeclickMix { slot: 1, start_frame: 0, frames: 30, channels: 1 },
        ]
    );
    assert_eq!(filled, 2);
    let (mixes, filled) = d.advance(80, 3);
    assert_eq!(
        mixes,
        vec![
            DeclickMix { slot: 0, start_frame: 30, frames: 70, channels: 2 },
            DeclickMix { slot: 1, start_frame: 30, frames: 70, channels: 1 },
        ]
    );
    assert_eq!(filled, 3);
    assert_eq!(d.num_active(), 0);
    let (mixes, filled) = d.advance(80, 1);
    assert!(mixes.is_empty());
    assert_eq!(filled, 1);
    assert_eq!(d.start(2), Some(0));
}

#[test]
fn stop_fades_are_refused_when_every_slot_is_busy() {
    let mut d = StopDeclickers::new(1, 64);
    assert_eq!(d.start(2), Some(0));
    assert_eq!(d.start(2), None);
    d.reset();
    assert_eq!(d.num_active(), 0);
    assert_eq!(d.start(1), Some(0));
    let mut none = StopDeclickers::new(0, 64);
    assert_eq!(none.start(1), None);
}

#[test]
fn played_blocks_age_or_stop_the_playback() {
    let base = CurrentProcessorState {
        has_sample_resource: true,
        playback_state: PlaybackState::Playing,
        playback_id: PlaybackID(7),
        last_finished_playback_id: PlaybackID(3),
        playhead_frames: 0,
        age_frames: 10,
    };
    let mut s = base;
    record_played_block(&mut s, 128, false, PlaybackID(7), 128);
    assert_eq!(s.playhead_frames, 128);
    assert_eq!(s.age_frames, 138);
    assert_eq!(s.playback_state, PlaybackState::Playing);
    let mut s = CurrentProcessorState { age_frames: u64::MAX - 1, ..base };
    record_played_block(&mut s, 5, false, PlaybackID(7), 128);
    assert_eq!(s.age_frames, u64::MAX);
    let mut s = base;
    record_played_block(&mut s, 300, true, PlaybackID(7), 128);
    assert_eq!(s.playback_state, PlaybackState::Stopped);
    assert_eq!(s.last_finished_playback_id, PlaybackID(7));
    assert_eq!(s.age_frames, 10);
    assert_eq!(s.playhead_frames, 300);
}

fn loaded(len: u64, playhead: u64, loops: u64) -> LoadedSample {
    LoadedSample {
        sample_len_frames: len,
        sample_num_channels: 2,
        sample_mono_to_stereo: false,
        playhead_frames: playhead,
        num_times_looped_back: loops,
    }
}

#[test]
fn play_requests_without_a_sample_change_nothing_or_wait() {
    let mut none: Option<LoadedSample> = None;
    assert_eq!(seek_for_play(&mut none, true, false, 0, 0, RepeatMode::PlayOnce), SeekPlan::NoSample);
    assert_eq!(seek_for_play(&mut none, false, false, 0, 0, RepeatMode::PlayOnce), SeekPlan::Queue);
    let mut s = Some(loaded(10, 4, 2));
    assert_eq!(seek_for_play(&mut s, true, true, 0, 3, RepeatMode::PlayOnce), SeekPlan::AlreadyPlaying);
    assert_eq!(s, Some(loaded(10, 4, 2)));
}

#[test]
fn resuming_late_moves_the_playhead_on() {
    let mut s = Some(loaded(10, 4, 2));
    assert_eq!(
        seek_for_play(&mut s, true, false, 0, 3, RepeatMode::PlayOnce),
        SeekPlan::Seek { stop_first: true, playhead: 7, finished: false }
    );
    assert_eq!(s, Some(loaded(10, 7, 0)));
    let mut s = Some(loaded(10, 4, 2));
    assert_eq!(
        seek_for_play(&mut s, true, false, 0, 0, RepeatMode::PlayOnce),
        SeekPlan::Seek { stop_first: false, playhead: 4, finished: false }
    );
    assert_eq!(s, Some(loaded(10, 4, 2)));
}

#[test]
fn playing_from_a_position_wraps_as_the_repeat_mode_allows() {
    let mut s = Some(loaded(10, 4, 2));
    assert_eq!(
        seek_for_play(&mut s, false, true, 25, 0, RepeatMode::RepeatEndlessly),
        SeekPlan::Seek { stop_first: true, playhead: 5, finished: false }
    );
    assert_eq!(s, Some(loaded(10, 5, 0)));
    let mut s = Some(loaded(10, 4, 2));
    assert_eq!(
        seek_for_play(&mut s, false, false, 12, 0, RepeatMode::PlayOnce),
        SeekPlan::Seek { stop_first: true, playhead: 10, finished: true }
    );
}

#[test]
fn seeks_fade_in_unless_they_start_at_the_beginning() {
    assert_eq!(fade_for_seek(0, false, true, 256), DeclickState::SettledAt1);
    assert_eq!(fade_for_seek(0, true, true, 256), DeclickState::FadingTo1 { frames_left: 256 });
    assert_eq!(fade_for_seek(0, true, false, 256), DeclickState::SettledAt1);
    assert_eq!(fade_for_seek(5, false, false, 64), DeclickState::FadingTo1 { frames_left: 64 });
}

#[test]
fn playback_requests_start_a_new_playback() {
    let mut st = CurrentProcessorState {
        has_sample_resource: true,
        playback_state: PlaybackState::Playing,
        playback_id: PlaybackID(3),
        last_finished_playback_id: PlaybackID(1),
        playhead_frames: 9,
        age_frames: 500,
    };
    begin_playback_request(&mut st, PlaybackID(4));
    assert_eq!(st.playback_id, PlaybackID(4));
    assert_eq!(st.last_finished_playback_id, PlaybackID(3));
    assert_eq!(st.age_frames, 0);
    assert_eq!(st.playhead_frames, 9);
    assert_eq!(playback_state_of(true, true), PlaybackState::Playing);
    assert_eq!(playback_state_of(false, true), PlaybackState::Paused);
    assert_eq!(playback_state_of(false, false), PlaybackState::Stopped);
}

fn request_state(sample: Option<LoadedSample>, playing: bool) -> SamplerRequestState {
    SamplerRequestState {
        playing,
        paused: false,
        is_first_process: false,
        state: CurrentProcessorState {
            has_sample_resource: sample.is_some(),
            playback_state: if playing { PlaybackState::Playing } else { PlaybackState::Stopped },
            playback_id: PlaybackID(1),
            last_finished_playback_id: PlaybackID(0),
            playhead_frames: 0,
            age_frames: 40,
        },
        loaded: sample,
        declicker: DeclickState::SettledAt1,
        stop_declickers: StopDeclickers::new(2, 256),
        queued_delay_frames: None,
        num_out_channels: 2,
    }
}

#[test]
fn pausing_keeps_the_playhead_and_fades_out() {
    let mut st = request_state(Some(loaded(10, 4, 2)), true);
    let r = plan_request(&mut st, false, true, 0, 0, PlaybackID(2), RepeatMode::PlayOnce, true, 256);
    assert_eq!(r.stop_tail, None);
    assert!(st.paused);
    assert!(!st.playing);
    assert_eq!(st.loaded, Some(loaded(10, 4, 2)));
    assert_eq!(st.declicker, DeclickState::FadingTo0 { frames_left: 256 });
    assert_eq!(st.state.playback_state, PlaybackState::Paused);
    assert_eq!(st.state.playback_id, PlaybackID(2));
    assert_eq!(st.state.last_finished_playback_id, PlaybackID(1));
    assert_eq!(st.state.age_frames, 0);
}

#[test]
fn stopping_rewinds_and_fades_out_what_was_playing() {
    let mut st = request_state(Some(loaded(10, 4, 2)), true);
    let r = plan_request(&mut st, false, false, 0, 0, PlaybackID(2), RepeatMode::PlayOnce, true, 256);
    assert_eq!(
        r.stop_tail,
        Some(StopTail { slot: 0, loaded: loaded(10, 4, 2), declicker: DeclickState::FadingTo0 { frames_left: 256 } })
    );
    assert!(!st.playing);
    assert!(!st.paused);
    assert_eq!(st.loaded, Some(loaded(10, 0, 0)));
    assert_eq!(st.declicker, DeclickState::SettledAt1);
    assert_eq!(st.state.last_finished_playback_id, PlaybackID(2));
    assert_eq!(st.state.playback_state, PlaybackState::Stopped);
    assert_eq!(st.stop_declickers.num_active(), 1);
}

#[test]
fn stopping_a_silent_sampler_starts_no_fade() {
    let mut st = request_state(Some(loaded(10, 4, 2)), false);
    assert_eq!(stop_playback(&mut st, 256), None);
    assert_eq!(st.loaded, Some(loaded(10, 0, 0)));
    assert_eq!(st.stop_declickers.num_active(), 0);
}

#[test]
fn playing_from_elsewhere_stops_first_and_crossfades() {
    let mut st = request_state(Some(loaded(10, 4, 2)), true);
    let r = plan_request(&mut st, true, false, 2, 0, PlaybackID(5), RepeatMode::PlayOnce, true, 256);
    assert_eq!(r.stop_tail.map(|t| t.slot), Some(0));
    assert!(st.playing);
    assert_eq!(st.loaded, Some(loaded(10, 2, 0)));
    assert_eq!(st.declicker, DeclickState::FadingTo1 { frames_left: 256 });
    assert_eq!(st.state.playhead_frames, 2);
    assert_eq!(st.state.playback_state, PlaybackState::Playing);
    assert_eq!(st.state.last_finished_playback_id, PlaybackID(1));
    assert_eq!(st.queued_delay_frames, None);
}

#[test]
fn playing_from_the_end_finishes_at_once() {
    let mut st = request_state(Some(loaded(10, 4, 2)), false);
    let r = plan_request(&mut st, true, false, 12, 0, PlaybackID(5), RepeatMode::PlayOnce, true, 256);
    assert_eq!(r.stop_tail, None);
    assert!(!st.playing);
    assert_eq!(st.loaded, Some(loaded(10, 10, 0)));
    assert_eq!(st.state.last_finished_playback_id, PlaybackID(5));
    assert_eq!(st.state.playback_state, PlaybackState::Stopped);
}

#[test]
fn resuming_while_playing_changes_nothing_but_the_ids() {
    let mut st = request_state(Some(loaded(10, 4, 2)), true);
    st.queued_delay_frames = Some(3);
    let r = plan_request(&mut st, true, true, 0, 9, PlaybackID(6), RepeatMode::PlayOnce, true, 256);
    assert_eq!(r.stop_tail, None);
    assert!(st.playing);
    assert_eq!(st.loaded, Some(loaded(10, 4, 2)));
    assert_eq!(st.queued_delay_frames, None);
    assert_eq!(st.state.playback_id, PlaybackID(6));
}

#[test]
fn playing_without_a_sample_keeps_the_delay() {
    let mut st = request_state(None, false);
    st.is_first_process = true;
    let r = plan_request(&mut st, true, false, 5, 7, PlaybackID(2), RepeatMode::PlayOnce, true, 256);
    assert_eq!(r.stop_tail, None);
    assert!(st.playing);
    assert!(!st.is_first_process);
    assert_eq!(st.queued_delay_frames, Some(7));
    assert_eq!(st.state.playback_state, PlaybackState::Playing);
}

#[test]
fn a_new_sample_stops_what_was_playing() {
    let mut st = request_state(Some(loaded(10, 4, 2)), true);
    let tail = change_sample(&mut st, Some(loaded(20, 0, 0)), 256);
    assert_eq!(tail.map(|t| (t.slot, t.loaded)), Some((0, loaded(10, 4, 2))));
    assert_eq!(st.loaded, Some(loaded(20, 0, 0)));
    assert!(st.state.has_sample_resource);
    assert!(st.playing);
    assert_eq!(change_sample(&mut st, None, 256).map(|t| t.slot), Some(1));
    assert_eq!(st.loaded, None);
    assert!(!st.state.has_sample_resource);
}

#[test]
fn a_sampler_block_clears_or_processes() {
    let mut st = request_state(Some(loaded(10, 4, 2)), false);
    assert_eq!(start_sampler_block(&st), SamplerBlockStart::ClearAllOutputs);
    st.playing = true;
    assert_eq!(start_sampler_block(&st), SamplerBlockStart::Process { render_sample: true });
    st.playing = false;
    st.stop_declickers.start(2);
    assert_eq!(start_sampler_block(&st), SamplerBlockStart::Process { render_sample: false });
}

#[test]
fn a_rendered_block_ages_or_finishes_the_playback() {
    let mut st = request_state(Some(loaded(10, 6, 0)), true);
    record_rendered_block(&mut st, false, 64);
    assert!(st.playing);
    assert_eq!(st.state.age_frames, 104);
    assert_eq!(st.state.playhead_frames, 6);
    record_rendered_block(&mut st, true, 64);
    assert!(!st.playing);
    assert_eq!(st.state.playback_state, PlaybackState::Stopped);
    assert_eq!(st.state.last_finished_playback_id, PlaybackID(1));
}

#[test]
fn sampler_outputs_past_the_filled_ones_are_cleared_or_silent() {
    assert_eq!(sampler_outputs_to_clear(4, 1, 0b0100), vec![false, true, false, true]);
    assert_eq!(sampler_block_status(1, 3), ProcessStatus::OutputsModifiedWithSilenceMask(0b110));
    assert_eq!(sampler_block_status(3, 2), ProcessStatus::OutputsModifiedWithSilenceMask(0));
}

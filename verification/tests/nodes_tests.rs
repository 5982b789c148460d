use firewheel::config::{FirewheelBitFlags, FirewheelFlags, FORCE_CLEAR_BUFFERS, HARD_CLIP_OUTPUTS, PROFILE_NODES};
use firewheel::nodes::{
    playback_id_has_finished, worker_score, CurrentProcessorState, MixConfigError, MixNodeConfig,
    mix_plan, resolve_playhead, HardClipNode, MixPlan, MonoToStereoNode, SumNode, PlaybackID, PlaybackState, RepeatMode, SharedPlaybackState,
};
use firewheel::channel::{ChannelConfig, ChannelCount};
use firewheel::time::is_not_worklet;

#[test]
fn mix_config_limits_total_channels() {
    let c = MixNodeConfig::new(2, 4).unwrap();
    assert_eq!(c.channels(), 2);
    assert_eq!(c.num_in_streams(), 4);
    assert!(MixNodeConfig::new(8, 8).is_ok());
    match MixNodeConfig::new(8, 9) {
        Err(MixConfigError::TooManyChannels { channels, num_in_streams }) => {
            assert_eq!(channels, 8);
            assert_eq!(num_in_streams, 9);
        }
        Ok(_) => panic!("accepted 72 channels"),
    }
    assert!(MixNodeConfig::new(u32::MAX, u32::MAX).is_err());
}

#[test]
fn repeat_mode_loops() {
    assert!(!RepeatMode::PlayOnce.do_loop(0));
    assert!(RepeatMode::RepeatEndlessly.do_loop(1_000_000));
    let m = RepeatMode::RepeatMultiple { num_times_to_repeat: 2 };
    assert!(m.do_loop(0));
    assert!(m.do_loop(1));
    assert!(!m.do_loop(2));
}

#[test]
fn shared_playback_state_from_u32() {
    assert_eq!(SharedPlaybackState::from_u32(0), SharedPlaybackState::Stopped);
    assert_eq!(SharedPlaybackState::from_u32(1), SharedPlaybackState::Paused);
    assert_eq!(SharedPlaybackState::from_u32(2), SharedPlaybackState::Playing);
    assert_eq!(SharedPlaybackState::from_u32(77), SharedPlaybackState::Stopped);
    for s in [SharedPlaybackState::Stopped, SharedPlaybackState::Paused, SharedPlaybackState::Playing] {
        assert_eq!(SharedPlaybackState::from_u32(s.to_u32()), s);
    }
}

fn state(playback_state: PlaybackState) -> CurrentProcessorState {
    CurrentProcessorState {
        has_sample_resource: true,
        playback_state,
        playback_id: PlaybackID(5),
        last_finished_playback_id: PlaybackID(3),
        playhead_frames: 100,
        age_frames: 1234,
    }
}

#[test]
fn sampler_worker_score() {
    let s = state(PlaybackState::Playing);
    assert_eq!(worker_score(&s, PlaybackID(2), true), u64::MAX);
    assert_eq!(worker_score(&s, PlaybackID(5), true), 1234);
    assert_eq!(worker_score(&state(PlaybackState::Stopped), PlaybackID(5), true), u64::MAX - 4);
    assert_eq!(worker_score(&state(PlaybackState::Stopped), PlaybackID(5), false), u64::MAX - 1);
    assert_eq!(worker_score(&state(PlaybackState::Paused), PlaybackID(5), false), u64::MAX - 2);
    assert_eq!(worker_score(&s, PlaybackID(5), false), u64::MAX - 3);
    let mut no_res = s;
    no_res.has_sample_resource = false;
    assert_eq!(worker_score(&no_res, PlaybackID(5), false), u64::MAX);
    assert!(playback_id_has_finished(&s, PlaybackID(3)));
    assert!(!playback_id_has_finished(&s, PlaybackID(4)));
}

#[test]
fn flags_pack_into_bits() {
    let f = FirewheelFlags { hard_clip_outputs: true, force_clear_buffers: true, ..Default::default() };
    let b = FirewheelBitFlags::from_flags(f);
    assert_eq!(b.bits, 9);
    assert!(b.contains(HARD_CLIP_OUTPUTS));
    assert!(b.contains(FORCE_CLEAR_BUFFERS));
    assert!(!b.contains(PROFILE_NODES));
    assert_eq!(FirewheelBitFlags::from_flags(FirewheelFlags::default()).bits, 0);
}

#[test]
fn playheads_past_the_end_wrap_as_the_repeat_mode_allows() {
    assert_eq!(resolve_playhead(RepeatMode::PlayOnce, 4, 10, 0), (4, 0));
    assert_eq!(resolve_playhead(RepeatMode::PlayOnce, 25, 10, 0), (10, 0));
    assert_eq!(resolve_playhead(RepeatMode::RepeatEndlessly, 25, 10, 3), (5, 5));
    assert_eq!(resolve_playhead(RepeatMode::RepeatMultiple { num_times_to_repeat: 1 }, 25, 10, 0), (10, 1));
    assert_eq!(resolve_playhead(RepeatMode::RepeatMultiple { num_times_to_repeat: 5 }, 25, 10, 0), (5, 2));
    assert_eq!(resolve_playhead(RepeatMode::RepeatMultiple { num_times_to_repeat: 2 }, 25, 10, 0), (5, 2));
    assert_eq!(resolve_playhead(RepeatMode::RepeatMultiple { num_times_to_repeat: 1 }, 25, 10, 4), (5, 6));
}

#[test]
fn the_clock_is_read_outside_worklets_only() {
    assert!(is_not_worklet(false));
    assert!(!is_not_worklet(true));
}

#[test]
fn mix_nodes_clear_copy_or_sum_their_streams() {
    assert_eq!(mix_plan(0b1111, 4, 2, 2), MixPlan::ClearAllOutputs);
    assert_eq!(mix_plan(0b01, 2, 2, 1), MixPlan::CopyInputs);
    assert_eq!(mix_plan(0b0101, 4, 2, 2), MixPlan::Sum { sources: vec![vec![0, 2], vec![1, 3]] });
    assert_eq!(mix_plan(0b01010, 5, 1, 5), MixPlan::Sum { sources: vec![vec![0, 2, 4]] });
    assert_eq!(mix_plan(0b00001, 5, 1, 5), MixPlan::Sum { sources: vec![vec![0, 1, 2, 3, 4]] });
}

#[test]
fn bit_flags_convert_from_flags() {
    let flags = FirewheelFlags { hard_clip_outputs: true, force_clear_buffers: true, ..FirewheelFlags::default() };
    let b: FirewheelBitFlags = FirewheelBitFlags::from(flags);
    assert_eq!(b.bits, HARD_CLIP_OUTPUTS | FORCE_CLEAR_BUFFERS);
    let c: FirewheelBitFlags = flags.into();
    assert_eq!(c, b);
}

#[test]
fn built_in_nodes_describe_their_channels() {
    let m = MonoToStereoNode.info();
    assert_eq!((m.default_channel_config.num_inputs.get(), m.default_channel_config.num_outputs.get()), (1, 2));
    assert_eq!(m.num_max_supported_inputs.get(), 1);
    let s = SumNode.info();
    assert_eq!((s.default_channel_config.num_inputs.get(), s.default_channel_config.num_outputs.get()), (4, 2));
    assert_eq!(s.num_max_supported_inputs.get(), 64);
    let h = HardClipNode.info();
    assert!(h.equal_num_ins_and_outs);
    assert_eq!(h.default_channel_config.num_outputs.get(), 2);
}

#[test]
fn sum_nodes_take_inputs_in_whole_groups() {
    let cfg = |i: u32, o: u32| ChannelConfig {
        num_inputs: ChannelCount::new(i).unwrap(),
        num_outputs: ChannelCount::new(o).unwrap(),
    };
    assert!(SumNode.channel_config_supported(cfg(4, 2)));
    assert!(!SumNode.channel_config_supported(cfg(5, 2)));
    assert!(SumNode.channel_config_supported(cfg(0, 3)));
    assert_eq!(SumNode.num_in_ports(cfg(6, 2)), 3);
}

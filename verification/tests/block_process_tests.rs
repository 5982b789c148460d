use firewheel::block_process::{
    all_channels_mask, all_channels_set, output_was_silent, plan_sub_chunk_call, BypassTracker,
    DeclickState, FinalMask, MergeActions, RangeFix, StatusMerge, SubChunkCall,
};
use firewheel::schedule::ProcessStatus;

const KEEP: MergeActions = MergeActions { before: RangeFix::Keep, this_chunk: RangeFix::Keep };

#[test]
fn fades_start_and_turn_around() {
    let mut d = DeclickState::SettledAt1;
    d.fade_to_0(256);
    assert_eq!(d, DeclickState::FadingTo0 { frames_left: 256 });
    let mut d = DeclickState::FadingTo1 { frames_left: 100 };
    d.fade_to_0(256);
    assert_eq!(d, DeclickState::FadingTo0 { frames_left: 156 });
    let mut d = DeclickState::FadingTo1 { frames_left: 300 };
    d.fade_to_0(256);
    assert_eq!(d, DeclickState::FadingTo0 { frames_left: 256 });
    let mut d = DeclickState::SettledAt0;
    d.fade_to_0(256);
    assert_eq!(d, DeclickState::SettledAt0);
    let mut d = DeclickState::SettledAt0;
    d.fade_to_1(64);
    assert_eq!(d, DeclickState::FadingTo1 { frames_left: 64 });
    assert!(DeclickState::SettledAt0.has_settled());
    assert!(!DeclickState::FadingTo0 { frames_left: 3 }.has_settled());
}

#[test]
fn a_fade_turned_around_twice_resumes() {
    let mut d = DeclickState::FadingTo1 { frames_left: 40 };
    d.fade_to_0(256);
    d.fade_to_1(256);
    assert_eq!(d, DeclickState::FadingTo1 { frames_left: 40 });
}

#[test]
fn bypass_requests_fade_nodes_with_outputs() {
    let mut t = BypassTracker::new(DeclickState::SettledAt1);
    assert!(!t.is_bypass_declicking);
    t.set_bypassed(true, true, 256);
    assert_eq!(t.declick, DeclickState::FadingTo0 { frames_left: 256 });
    assert!(t.is_bypass_declicking);

    let mut t = BypassTracker::new(DeclickState::SettledAt1);
    t.set_bypassed(true, false, 256);
    assert_eq!(t.declick, DeclickState::SettledAt0);
    assert!(!t.is_bypass_declicking);

    let mut t = BypassTracker::new(DeclickState::SettledAt1);
    t.set_bypassed(false, true, 256);
    assert_eq!(t.declick, DeclickState::SettledAt1);
    assert!(!t.is_bypass_declicking);

    let mut t = BypassTracker::new(DeclickState::FadingTo0 { frames_left: 10 });
    assert!(t.is_bypass_declicking);
    t.set_bypassed(false, true, 256);
    assert_eq!(t.declick, DeclickState::FadingTo1 { frames_left: 246 });
}

#[test]
fn bypassed_nodes_get_events_but_no_processing() {
    let mut is_bypassed = false;
    let mut first = true;
    let c = plan_sub_chunk_call(DeclickState::SettledAt0, &mut is_bypassed, &mut first, false);
    assert_eq!(
        c,
        SubChunkCall { notify_bypassed: Some(true), call_events: true, call_process: false, did_just_unbypass: false }
    );
    assert!(is_bypassed);
    assert!(!first);
    let c = plan_sub_chunk_call(DeclickState::SettledAt0, &mut is_bypassed, &mut first, false);
    assert_eq!(
        c,
        SubChunkCall { notify_bypassed: None, call_events: false, call_process: false, did_just_unbypass: false }
    );
    let c = plan_sub_chunk_call(DeclickState::FadingTo1 { frames_left: 5 }, &mut is_bypassed, &mut first, true);
    assert_eq!(
        c,
        SubChunkCall { notify_bypassed: Some(false), call_events: true, call_process: true, did_just_unbypass: true }
    );
    assert!(!is_bypassed);
}

#[test]
fn masks_of_the_first_channels() {
    assert_eq!(all_channels_mask(0), 0);
    assert_eq!(all_channels_mask(3), 0b111);
    assert_eq!(all_channels_mask(64), u64::MAX);
    assert_eq!(all_channels_mask(100), u64::MAX);
    assert!(all_channels_set(0b111, 3));
    assert!(!all_channels_set(0b101, 3));
    assert!(all_channels_set(0, 0));
    assert!(!all_channels_set(u64::MAX - 1, 64));
}

#[test]
fn silence_after_each_status() {
    assert!(output_was_silent(ProcessStatus::ClearAllOutputs, 0, 2, 2));
    assert!(output_was_silent(ProcessStatus::Bypass, 0b11, 2, 2));
    assert!(!output_was_silent(ProcessStatus::Bypass, 0b01, 2, 2));
    assert!(!output_was_silent(ProcessStatus::OutputsModified, u64::MAX, 2, 2));
    assert!(output_was_silent(ProcessStatus::OutputsModifiedWithSilenceMask(0b11), 0, 1, 2));
    assert!(!output_was_silent(ProcessStatus::OutputsModifiedWithSilenceMask(0b10), 0, 1, 2));
    assert!(!output_was_silent(ProcessStatus::OutputsModifiedWithConstantMask(u64::MAX), 0, 1, 2));
}

#[test]
fn agreeing_sub_chunks_pass_their_status_through() {
    let mut m = StatusMerge::new();
    for _ in 0..3 {
        assert_eq!(m.merge(ProcessStatus::OutputsModified, 0, 2, 0), KEEP);
    }
    assert_eq!(m.final_mask, None);
    assert_eq!(m.status(), ProcessStatus::OutputsModified);
}

#[test]
fn a_change_of_status_fixes_up_earlier_frames() {
    let mut m = StatusMerge::new();
    assert_eq!(m.merge(ProcessStatus::ClearAllOutputs, 0, 2, 0), KEEP);
    assert_eq!(
        m.merge(ProcessStatus::OutputsModified, 0, 2, 0),
        MergeActions { before: RangeFix::Clear, this_chunk: RangeFix::Keep }
    );
    assert_eq!(m.final_mask, Some(FinalMask::Silence(0)));
    assert_eq!(m.status(), ProcessStatus::OutputsModifiedWithSilenceMask(0));
    assert_eq!(
        m.merge(ProcessStatus::Bypass, 0b1, 2, 0),
        MergeActions { before: RangeFix::Keep, this_chunk: RangeFix::PassInputs }
    );
}

#[test]
fn merged_silence_keeps_channels_silent_throughout() {
    let mut m = StatusMerge::new();
    m.merge(ProcessStatus::OutputsModifiedWithSilenceMask(0b11), 0, 2, 0);
    let a = m.merge(ProcessStatus::Bypass, 0b01, 2, 0);
    assert_eq!(a, MergeActions { before: RangeFix::Keep, this_chunk: RangeFix::PassInputs });
    assert_eq!(m.status(), ProcessStatus::OutputsModifiedWithSilenceMask(0b01));

    let mut m = StatusMerge::new();
    m.merge(ProcessStatus::Bypass, 0b11, 2, 0);
    let a = m.merge(ProcessStatus::ClearAllOutputs, 0b11, 2, 0);
    assert_eq!(a, MergeActions { before: RangeFix::PassInputs, this_chunk: RangeFix::Clear });
    assert_eq!(m.status(), ProcessStatus::OutputsModifiedWithSilenceMask(0b11));
}

#[test]
fn merged_constant_drops_channels_whose_value_changed() {
    let mut m = StatusMerge::new();
    m.merge(ProcessStatus::OutputsModifiedWithConstantMask(0b111), 0, 3, 0);
    m.merge(ProcessStatus::OutputsModifiedWithConstantMask(0b011), 0, 3, 0b010);
    assert_eq!(m.status(), ProcessStatus::OutputsModifiedWithConstantMask(0b001));
    m.merge(ProcessStatus::OutputsModifiedWithSilenceMask(0b001), 0, 3, 0);
    assert_eq!(m.status(), ProcessStatus::OutputsModifiedWithSilenceMask(0));
}

#[test]
fn mixed_statuses_keep_the_outputs_silent_in_every_sub_chunk() {
    let mut m = StatusMerge::new();
    m.merge(ProcessStatus::OutputsModifiedWithSilenceMask(0b011), 0b110, 3, 0);
    m.merge(ProcessStatus::Bypass, 0b110, 3, 0);
    m.merge(ProcessStatus::ClearAllOutputs, 0b110, 3, 0);
    assert_eq!(m.status(), ProcessStatus::OutputsModifiedWithSilenceMask(0b010));
}

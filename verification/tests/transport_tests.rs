use firewheel::transport::{
    clamp_to_transport_end, next_block_frames, resumed_start, transport_block_action, transport_change, TransportBlockAction,
    TransportChange,
};

#[test]
fn new_transport_states_are_taken_over() {
    assert_eq!(transport_change(false, true, true, true, true, false), TransportChange::Keep);
    assert_eq!(transport_change(true, false, false, true, true, true), TransportChange::Restart);
    assert_eq!(transport_change(true, true, true, false, false, true), TransportChange::Restart);
    assert_eq!(transport_change(true, true, false, true, false, true), TransportChange::Resume);
    assert_eq!(transport_change(true, true, false, true, false, false), TransportChange::ResumeFromPause);
    assert_eq!(transport_change(true, true, false, true, true, false), TransportChange::Continue);
    assert_eq!(transport_change(true, true, false, true, true, true), TransportChange::Keep);
    assert_eq!(transport_change(true, true, false, false, true, true), TransportChange::Pause);
    assert_eq!(transport_change(true, true, false, false, false, false), TransportChange::Keep);
}

#[test]
fn a_resumed_transport_moves_its_start_by_the_pause() {
    let start = resumed_start(1000, 48_000, 44_000);
    assert_eq!(start, 5000);
    assert_eq!(48_000 - start, 44_000 - 1000);
}

#[test]
fn blocks_loop_back_or_stop_at_the_transport_end() {
    assert_eq!(transport_block_action(100, Some(100), None), TransportBlockAction::LoopBack);
    assert_eq!(transport_block_action(99, Some(100), Some(0)), TransportBlockAction::Run);
    assert_eq!(transport_block_action(100, None, Some(50)), TransportBlockAction::Stop);
    assert_eq!(transport_block_action(10, None, Some(50)), TransportBlockAction::Run);
    assert_eq!(transport_block_action(10, None, None), TransportBlockAction::Run);
}

#[test]
fn blocks_end_where_the_transport_ends() {
    assert_eq!(clamp_to_transport_end(128, 1000, None), 128);
    assert_eq!(clamp_to_transport_end(128, 1000, Some(1128)), 128);
    assert_eq!(clamp_to_transport_end(128, 1000, Some(1100)), 100);
    assert_eq!(clamp_to_transport_end(128, 1000, Some(900)), 0);
    assert_eq!(clamp_to_transport_end(128, -50, Some(0)), 50);
}

#[test]
fn blocks_stop_at_the_block_size_and_the_transport_end() {
    assert_eq!(next_block_frames(1000, 256, 0, None), 256);
    assert_eq!(next_block_frames(100, 256, 0, None), 100);
    assert_eq!(next_block_frames(1000, 256, 1000, Some(1100)), 100);
    assert_eq!(next_block_frames(1000, 256, 1000, Some(1256)), 256);
    assert_eq!(next_block_frames(1000, 256, 1000, Some(1000)), 256);
    assert_eq!(next_block_frames(1000, 256, 1000, Some(900)), 256);
}

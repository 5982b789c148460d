use firewheel::buffers::{BufferFlags, InBufferAssignment, OutBufferAssignment};
use firewheel::ids::NodeID;
use firewheel::schedule::{
    finish_node_buffers, is_channel_set, node_buffers_valid, prepare_node_buffers, set_channel, sum_inputs, CompiledSchedule, InsertedSum,
    PairAction, ProcessStatus, ScheduledNode,
};

fn flag(silent: bool, constant: bool, frames: u16) -> BufferFlags {
    BufferFlags { silent, constant, frames }
}

fn input(i: usize, should_clear: bool) -> InBufferAssignment {
    InBufferAssignment { buffer_index: i, should_clear }
}

fn output(i: usize) -> OutBufferAssignment {
    OutBufferAssignment { buffer_index: i }
}

fn node(ins: &[InBufferAssignment], outs: &[usize], wants_in_place: bool) -> ScheduledNode {
    let mut n = ScheduledNode::new(NodeID(1), wants_in_place);
    for a in ins {
        n.add_input_buffer(*a);
    }
    for o in outs {
        n.add_output_buffer(output(*o));
    }
    n
}

#[test]
fn channel_masks_set_and_clear_bits() {
    let m = set_channel(0, 3, true);
    assert_eq!(m, 8);
    assert!(is_channel_set(m, 3));
    assert!(!is_channel_set(m, 2));
    let m = set_channel(m, 63, true);
    assert!(is_channel_set(m, 63));
    assert_eq!(set_channel(m, 3, false), 1u64 << 63);
}

#[test]
fn set_silent_marks_silence_and_constancy_together() {
    let mut f = flag(false, true, 4);
    f.set_silent(true, 9);
    assert_eq!(f, flag(true, true, 9));
    f.set_silent(false, 2);
    assert_eq!(f, flag(false, false, 2));
}

#[test]
fn a_sum_skips_silent_inputs() {
    let mut flags = vec![flag(true, true, 8), flag(false, false, 8), flag(true, true, 8), flag(false, false, 8)];
    let mut sum = InsertedSum::new(output(3));
    sum.add_input(input(0, false));
    sum.add_input(input(1, false));
    sum.add_input(input(2, false));
    let plan = sum_inputs(&sum, &mut flags, 6);
    assert!(plan.zero_output);
    assert!(!plan.copy_first);
    assert_eq!(plan.add_inputs, vec![1]);
    assert_eq!(flags[3], flag(false, false, 6));
}

#[test]
fn a_sum_of_silent_inputs_is_silent() {
    let mut flags = vec![flag(true, true, 8), flag(true, true, 8), flag(true, true, 8)];
    let mut sum = InsertedSum::new(output(2));
    sum.add_input(input(0, false));
    sum.add_input(input(1, false));
    let plan = sum_inputs(&sum, &mut flags, 8);
    assert!(!plan.zero_output);
    assert!(plan.add_inputs.is_empty());
    assert_eq!(flags[2], flag(true, true, 8));
}

#[test]
fn unconnected_inputs_are_cleared_once() {
    // Input 0 is fed, input 1 has no edge; two outputs.
    let n = node(&[input(0, false), input(1, true)], &[2, 3], false);
    let mut flags = vec![flag(false, false, 8), flag(false, false, 8), flag(true, true, 8), flag(false, false, 8)];
    let plan = prepare_node_buffers(&n, &mut flags, 8, false);
    assert_eq!(plan.input_clears, vec![false, true]);
    assert_eq!(plan.output_clears, vec![false, false]);
    assert_eq!(plan.first_passed_input, 0);
    assert_eq!(flags[1], flag(true, true, 8));
    assert_eq!(plan.in_silence_mask, 0b10);
    assert_eq!(plan.out_silence_mask, 0b01);
    assert_eq!(plan.out_constant_mask, 0b01);
    // A second time nothing is cleared: the buffer is known silent.
    let plan = prepare_node_buffers(&n, &mut flags, 8, false);
    assert_eq!(plan.input_clears, vec![false, false]);
}

#[test]
fn forced_clearing_clears_outputs() {
    let n = node(&[input(0, false)], &[1], false);
    let mut flags = vec![flag(false, false, 8), flag(false, false, 8)];
    let plan = prepare_node_buffers(&n, &mut flags, 8, true);
    assert_eq!(plan.output_clears, vec![true]);
    assert_eq!(flags[1], flag(true, true, 8));
}

#[test]
fn in_place_nodes_with_separate_buffers_copy_inputs_first() {
    let n = node(&[input(0, false), input(1, true), input(2, false)], &[3, 4], true);
    let mut flags = vec![
        flag(true, true, 8),
        flag(false, false, 8),
        flag(false, false, 8),
        flag(false, false, 8),
        flag(false, false, 8),
    ];
    let plan = prepare_node_buffers(&n, &mut flags, 8, false);
    assert_eq!(plan.pair_actions, vec![PairAction::FillConstant { out_was_constant: false }, PairAction::Clear]);
    assert_eq!(flags[3], flag(true, true, 8));
    assert_eq!(flags[4], flag(true, true, 8));
    // The third input has no output of its own: it is handed over as input 0.
    assert_eq!(plan.first_passed_input, 2);
    assert_eq!(plan.in_silence_mask, 0);
    assert_eq!(plan.out_silence_mask, 0b11);
}

#[test]
fn statuses_update_output_flags() {
    let n = node(&[input(0, false)], &[1, 2], false);
    let base = vec![flag(false, false, 8), flag(false, false, 8), flag(false, false, 8)];

    let mut flags = base.clone();
    let plan = finish_node_buffers(&n, &mut flags, 8, false, ProcessStatus::ClearAllOutputs, &vec![]);
    assert_eq!(plan.output_clears, vec![true, true]);
    assert_eq!(flags[1], flag(true, true, 8));

    let mut flags = base.clone();
    flags[0] = flag(true, true, 8);
    let plan = finish_node_buffers(&n, &mut flags, 8, false, ProcessStatus::Bypass, &vec![]);
    assert_eq!(plan.pair_actions, vec![PairAction::FillConstant { out_was_constant: false }]);
    assert_eq!(plan.output_clears, vec![false, true]);
    assert_eq!(flags[1], flag(true, true, 8));

    let mut flags = base.clone();
    finish_node_buffers(&n, &mut flags, 5, false, ProcessStatus::OutputsModifiedWithSilenceMask(0b10), &vec![]);
    assert_eq!(flags[1], flag(false, false, 5));
    assert_eq!(flags[2], flag(true, true, 5));

    let mut flags = base.clone();
    finish_node_buffers(&n, &mut flags, 5, false, ProcessStatus::OutputsModifiedWithConstantMask(0b01), &vec![false, true]);
    assert_eq!(flags[1], flag(false, true, 5));
    assert_eq!(flags[2], flag(false, false, 5));

    let mut flags = base;
    finish_node_buffers(&n, &mut flags, 5, false, ProcessStatus::OutputsModified, &vec![]);
    assert_eq!(flags[2], flag(false, false, 5));
}

#[test]
fn graph_inputs_and_outputs_follow_the_flags() {
    let graph_in = node(&[], &[0, 1], false);
    let graph_out = node(&[input(0, false), input(2, false)], &[], false);
    let mut s = CompiledSchedule::new(vec![], vec![graph_in, graph_out], 3, 16, NodeID(0), 0);
    assert_eq!(s.buffer_flags[2], flag(true, true, 16));
    assert!(!s.has_pre_proc_nodes());
    s.buffer_flags[2] = flag(true, true, 4);
    // One stream channel, not silent; the second input output is zeroed.
    s.buffer_flags[1] = flag(false, false, 16);
    let plan = s.prepare_graph_inputs(32, 1, false, 0);
    assert_eq!(plan.frames, 16);
    assert_eq!(plan.zero_outputs, vec![false, true]);
    assert_eq!(s.buffer_flags[0], flag(false, false, 16));
    assert_eq!(s.buffer_flags[1], flag(true, true, 16));
    assert_eq!(plan.tail_fixes.len(), 1);
    assert_eq!((plan.tail_fixes[0].buffer_index, plan.tail_fixes[0].from_frame, plan.tail_fixes[0].silent), (2, 4, true));
    assert_eq!(s.buffer_flags[2], flag(true, true, 16));
    assert_eq!(s.read_graph_outputs(2), 0b10);
    assert_eq!(s.read_graph_outputs(1), 0);
}

#[test]
fn blocks_run_every_node_but_the_graph_input() {
    let mut graph_in = node(&[], &[0, 1], false);
    graph_in.id = NodeID(0);
    let graph_out = node(&[input(0, false), input(2, false)], &[], false);
    let mut other = node(&[], &[], false);
    other.id = NodeID(7);
    let mut last = graph_out;
    last.id = NodeID(9);
    let s = CompiledSchedule::new(vec![NodeID(0), NodeID(3)], vec![graph_in, other, last], 3, 16, NodeID(0), 0);
    assert_eq!(s.pre_proc_nodes_to_run(), vec![NodeID(3)]);
    assert_eq!(s.scheduled_positions_to_run(), vec![1, 2]);
}

#[test]
fn a_schedule_reuses_the_buffers_that_have_room() {
    let mut old = CompiledSchedule::new(vec![], vec![], 3, 16, NodeID(0), 0);
    assert!(!old.reuse_buffer_allocation);
    assert_eq!(old.buffer_capacity(), 3);
    old.buffer_flags[0] = flag(false, false, 16);
    let mut fresh = CompiledSchedule::new(vec![], vec![], 4, 16, NodeID(0), old.buffer_capacity());
    assert!(!fresh.reuse_buffer_allocation);
    assert_eq!(fresh.buffer_flags.len(), 4);
    let mut reused = CompiledSchedule::new(vec![], vec![], 2, 16, NodeID(0), old.buffer_capacity());
    assert!(reused.reuse_buffer_allocation);
    assert_eq!(reused.buffer_capacity(), 3);
    assert!(reused.buffer_flags.is_empty());
    reused.sync_new_buffers(&mut old);
    assert_eq!(reused.buffer_flags, vec![flag(false, false, 16), flag(true, true, 16)]);
    assert!(old.buffer_flags.is_empty());
    let before = fresh.buffer_flags.clone();
    fresh.sync_new_buffers(&mut old);
    assert_eq!(fresh.buffer_flags, before);
}

#[test]
fn node_buffers_must_exist_and_be_distinct() {
    let ok = node(&[input(0, false), input(1, false)], &[2], false);
    assert!(node_buffers_valid(&ok, 3));
    assert!(!node_buffers_valid(&ok, 2));
    let dup_in = node(&[input(0, false), input(0, false)], &[2], false);
    assert!(!node_buffers_valid(&dup_in, 3));
    let dup_out = node(&[], &[1, 1], false);
    assert!(!node_buffers_valid(&dup_out, 3));
    let shared = node(&[input(0, false)], &[0], false);
    assert!(!node_buffers_valid(&shared, 3));
    let mut in_place = node(&[input(0, false)], &[0], true);
    in_place.is_in_place_buffers = true;
    assert!(node_buffers_valid(&in_place, 1));
}

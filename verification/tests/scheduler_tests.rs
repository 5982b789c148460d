use firewheel::config::{BufferOutOfSpaceMode, ClearScheduledEventsType};
use firewheel::event::{EventTime, EventTimeKind, NodeEvent, NodeEventListIndex};
use firewheel::ids::NodeID;
use firewheel::scheduler::{ClearScheduledEventsEvent, EventScheduler, NodeEventSchedulerData};
use thunderdome::Arena;

fn immediate(node: NodeID, payload: u32) -> NodeEvent<u32> {
    NodeEvent { node_id: node, time: None, event: payload }
}

fn at(node: NodeID, kind: EventTimeKind, samples: i64, payload: u32) -> NodeEvent<u32> {
    NodeEvent { node_id: node, time: Some(EventTime { kind, samples }), event: payload }
}

fn two_nodes() -> (Arena<NodeEventSchedulerData>, NodeID, NodeID) {
    let mut nodes = Arena::new();
    let a = NodeID(nodes.insert(NodeEventSchedulerData::new()).to_bits());
    let b = NodeID(nodes.insert(NodeEventSchedulerData::new()).to_bits());
    (nodes, a, b)
}

fn data(nodes: &Arena<NodeEventSchedulerData>, id: NodeID) -> &NodeEventSchedulerData {
    nodes.get(thunderdome::Index::from_bits(id.0).unwrap()).unwrap()
}

fn data_mut(nodes: &mut Arena<NodeEventSchedulerData>, id: NodeID) -> &mut NodeEventSchedulerData {
    nodes.get_mut(thunderdome::Index::from_bits(id.0).unwrap()).unwrap()
}

fn payloads(s: &mut EventScheduler<u32>, events: &[NodeEventListIndex]) -> Vec<u32> {
    events.iter().map(|i| s.take_event(*i).unwrap().event).collect()
}

#[test]
fn events_are_counted_per_node_and_kind() {
    let (mut nodes, a, b) = two_nodes();
    let mut s: EventScheduler<u32> = EventScheduler::new(8, 8, BufferOutOfSpaceMode::AllocateOnAudioThread);
    let mut group = vec![
        immediate(a, 1),
        at(a, EventTimeKind::Samples, 10, 2),
        at(b, EventTimeKind::Musical, 5, 3),
        at(a, EventTimeKind::Seconds, 2, 4),
        immediate(NodeID(u64::MAX), 5),
    ];
    s.push_event_group(&mut group, &mut nodes);
    assert!(group.is_empty());
    assert_eq!(data(&nodes, a).num_immediate_events, 1);
    assert_eq!(data(&nodes, a).num_scheduled_non_musical_events, 2);
    assert_eq!(data(&nodes, a).num_scheduled_musical_events, 0);
    assert_eq!(data(&nodes, b).num_scheduled_musical_events, 1);
    assert!(s.node_has_scheduled_events(data(&nodes, b)));
}

#[test]
fn each_node_gets_its_events_in_sub_chunks() {
    let (mut nodes, a, b) = two_nodes();
    let mut s: EventScheduler<u32> = EventScheduler::new(8, 8, BufferOutOfSpaceMode::AllocateOnAudioThread);
    let mut group = vec![
        immediate(a, 1),
        immediate(b, 2),
        at(a, EventTimeKind::Samples, 10, 3),
        at(b, EventTimeKind::Musical, 5, 4),
        at(a, EventTimeKind::Samples, 2, 5),
    ];
    s.push_event_group(&mut group, &mut nodes);
    s.prepare_process_block(8, &mut nodes);
    assert_eq!(data(&nodes, a).num_scheduled_events_this_block, 1);
    assert_eq!(data(&nodes, b).num_scheduled_events_this_block, 1);

    let plan_a = s.process_node(a, data_mut(&mut nodes, a), 8, 0);
    assert_eq!(plan_a.len(), 2);
    assert_eq!((plan_a[0].start, plan_a[0].end, plan_a[0].sub_clock_samples), (0, 2, 0));
    assert_eq!((plan_a[1].start, plan_a[1].end, plan_a[1].sub_clock_samples), (2, 8, 2));
    assert_eq!(payloads(&mut s, &plan_a[0].events), vec![1]);
    assert_eq!(payloads(&mut s, &plan_a[1].events), vec![5]);

    let plan_b = s.process_node(b, data_mut(&mut nodes, b), 8, 0);
    assert_eq!(plan_b.len(), 2);
    assert_eq!((plan_b[1].start, plan_b[1].end), (5, 8));
    assert_eq!(payloads(&mut s, &plan_b[0].events), vec![2]);
    assert_eq!(payloads(&mut s, &plan_b[1].events), vec![4]);

    // The event at 10 is still pending for the next block.
    assert_eq!(data(&nodes, a).num_scheduled_non_musical_events, 1);
    assert_eq!(data(&nodes, a).num_scheduled_events_this_block, 0);
    assert_eq!(data(&nodes, b).num_scheduled_musical_events, 0);
    s.cleanup_process_block();

    s.prepare_process_block(16, &mut nodes);
    let plan_a = s.process_node(a, data_mut(&mut nodes, a), 8, 8);
    assert_eq!(plan_a.len(), 2);
    assert_eq!((plan_a[1].start, plan_a[1].sub_clock_samples), (2, 10));
    assert_eq!(payloads(&mut s, &plan_a[1].events), vec![3]);
}

#[test]
fn late_events_are_handled_at_the_start_of_the_block() {
    let (mut nodes, a, _b) = two_nodes();
    let mut s: EventScheduler<u32> = EventScheduler::new(8, 8, BufferOutOfSpaceMode::AllocateOnAudioThread);
    let mut group = vec![at(a, EventTimeKind::Samples, 3, 7), at(a, EventTimeKind::Samples, 1, 6)];
    s.push_event_group(&mut group, &mut nodes);
    s.prepare_process_block(20, &mut nodes);
    let plan = s.process_node(a, data_mut(&mut nodes, a), 4, 16);
    assert_eq!(plan.len(), 1);
    assert_eq!((plan[0].start, plan[0].end), (0, 4));
    // Sorted by time: the event at 1 comes first.
    assert_eq!(payloads(&mut s, &plan[0].events), vec![6, 7]);
}

#[test]
fn a_full_arena_drops_events_when_asked_to() {
    let (mut nodes, a, _b) = two_nodes();
    let mut s: EventScheduler<u32> = EventScheduler::new(1, 1, BufferOutOfSpaceMode::DropEvents);
    let mut group = vec![
        at(a, EventTimeKind::Samples, 1, 1),
        at(a, EventTimeKind::Samples, 2, 2),
        immediate(a, 3),
        immediate(a, 4),
    ];
    s.push_event_group(&mut group, &mut nodes);
    assert_eq!(data(&nodes, a).num_scheduled_non_musical_events, 1);
    assert_eq!(data(&nodes, a).num_immediate_events, 1);
}

#[test]
fn a_full_arena_grows_when_allowed() {
    let (mut nodes, a, _b) = two_nodes();
    let mut s: EventScheduler<u32> = EventScheduler::new(1, 1, BufferOutOfSpaceMode::AllocateOnAudioThread);
    let mut group = vec![
        at(a, EventTimeKind::Samples, 1, 1),
        at(a, EventTimeKind::Samples, 2, 2),
        at(a, EventTimeKind::Samples, 3, 3),
        immediate(a, 4),
        immediate(a, 5),
    ];
    s.push_event_group(&mut group, &mut nodes);
    assert_eq!(data(&nodes, a).num_scheduled_non_musical_events, 3);
    assert_eq!(data(&nodes, a).num_immediate_events, 2);
    s.prepare_process_block(10, &mut nodes);
    let plan = s.process_node(a, data_mut(&mut nodes, a), 10, 0);
    let all: Vec<u32> = plan.iter().flat_map(|c| c.events.clone()).map(|i| s.take_event(i).unwrap().event).collect();
    assert_eq!(all, vec![4, 5, 1, 2, 3]);
}

#[test]
fn clearing_removes_only_the_requested_kind() {
    let (mut nodes, a, b) = two_nodes();
    let mut s: EventScheduler<u32> = EventScheduler::new(8, 8, BufferOutOfSpaceMode::AllocateOnAudioThread);
    let mut group = vec![
        at(a, EventTimeKind::Musical, 4, 1),
        at(a, EventTimeKind::Samples, 4, 2),
        at(b, EventTimeKind::Musical, 4, 3),
    ];
    s.push_event_group(&mut group, &mut nodes);
    let msgs = vec![ClearScheduledEventsEvent { node_id: Some(a), event_type: ClearScheduledEventsType::MusicalOnly }];
    s.handle_clear_scheduled_events_event(&msgs, &mut nodes);
    assert_eq!(data(&nodes, a).num_scheduled_musical_events, 0);
    assert_eq!(data(&nodes, a).num_scheduled_non_musical_events, 1);
    assert_eq!(data(&nodes, b).num_scheduled_musical_events, 1);

    let msgs = vec![ClearScheduledEventsEvent { node_id: None, event_type: ClearScheduledEventsType::All }];
    s.handle_clear_scheduled_events_event(&msgs, &mut nodes);
    assert_eq!(data(&nodes, a).num_scheduled_non_musical_events, 0);
    assert_eq!(data(&nodes, b).num_scheduled_musical_events, 0);
    s.prepare_process_block(100, &mut nodes);
    assert!(s.process_node(b, data_mut(&mut nodes, b), 8, 96)[0].events.is_empty());
}

#[test]
fn events_of_removed_nodes_are_dropped() {
    let (mut nodes, a, b) = two_nodes();
    let mut s: EventScheduler<u32> = EventScheduler::new(8, 8, BufferOutOfSpaceMode::AllocateOnAudioThread);
    let mut group = vec![at(a, EventTimeKind::Samples, 1, 1), at(b, EventTimeKind::Samples, 2, 2)];
    s.push_event_group(&mut group, &mut nodes);
    nodes.remove(thunderdome::Index::from_bits(b.0).unwrap());
    s.remove_events_from_removed_nodes(&mut nodes);
    s.prepare_process_block(8, &mut nodes);
    let plan = s.process_node(a, data_mut(&mut nodes, a), 8, 0);
    let all: Vec<u32> = plan.iter().flat_map(|c| c.events.clone()).map(|i| s.take_event(i).unwrap().event).collect();
    assert_eq!(all, vec![1]);
}

#[test]
fn musical_events_wait_without_a_transport() {
    let (mut nodes, a, _b) = two_nodes();
    let mut s: EventScheduler<u32> = EventScheduler::new(8, 8, BufferOutOfSpaceMode::AllocateOnAudioThread);
    let mut group = vec![at(a, EventTimeKind::Musical, 1, 1), at(a, EventTimeKind::Samples, 3, 2)];
    s.push_event_group(&mut group, &mut nodes);
    s.sync_scheduled_events(None::<fn(&NodeEvent<u32>) -> i64>);
    s.prepare_process_block(8, &mut nodes);
    let plan = s.process_node(a, data_mut(&mut nodes, a), 8, 0);
    let all: Vec<u32> = plan.iter().flat_map(|c| c.events.clone()).map(|i| s.take_event(i).unwrap().event).collect();
    assert_eq!(all, vec![2]);
    assert_eq!(data(&nodes, a).num_scheduled_musical_events, 1);

    // With a transport the musical event gets a time again.
    s.sync_scheduled_events(Some(|_e: &NodeEvent<u32>| 12i64));
    s.prepare_process_block(16, &mut nodes);
    let plan = s.process_node(a, data_mut(&mut nodes, a), 8, 8);
    assert_eq!((plan[1].start, plan[1].sub_clock_samples), (4, 12));
}

#[test]
fn a_sample_rate_change_converts_times() {
    let (mut nodes, a, _b) = two_nodes();
    let mut s: EventScheduler<u32> = EventScheduler::new(8, 8, BufferOutOfSpaceMode::AllocateOnAudioThread);
    let mut group = vec![at(a, EventTimeKind::Samples, 5, 1)];
    s.push_event_group(&mut group, &mut nodes);
    s.sample_rate_changed(|t: i64| t * 2);
    s.prepare_process_block(16, &mut nodes);
    let plan = s.process_node(a, data_mut(&mut nodes, a), 16, 0);
    assert_eq!(plan[1].start, 10);
}

#[test]
fn taking_an_event_twice_gives_nothing() {
    let (mut nodes, a, _b) = two_nodes();
    let mut s: EventScheduler<u32> = EventScheduler::new(8, 8, BufferOutOfSpaceMode::AllocateOnAudioThread);
    let mut group = vec![immediate(a, 9)];
    s.push_event_group(&mut group, &mut nodes);
    assert_eq!(s.take_event(NodeEventListIndex::Immediate(0)).map(|e| e.event), Some(9));
    assert!(s.take_event(NodeEventListIndex::Immediate(0)).is_none());
    assert!(s.take_event(NodeEventListIndex::Immediate(5)).is_none());
    assert!(s.take_event(NodeEventListIndex::Scheduled(0)).is_none());
}

#[test]
fn immediate_events_of_a_node_in_separate_clumps() {
    let (mut nodes, a, b) = two_nodes();
    let mut s: EventScheduler<u32> = EventScheduler::new(8, 8, BufferOutOfSpaceMode::AllocateOnAudioThread);
    let mut group = vec![immediate(a, 1), immediate(b, 2), immediate(a, 3), immediate(a, 4)];
    s.push_event_group(&mut group, &mut nodes);
    s.prepare_process_block(8, &mut nodes);
    let plan_b = s.process_node(b, data_mut(&mut nodes, b), 8, 0);
    assert_eq!(payloads(&mut s, &plan_b[0].events), vec![2]);
    let plan_a = s.process_node(a, data_mut(&mut nodes, a), 8, 0);
    assert_eq!(payloads(&mut s, &plan_a[0].events), vec![1, 3, 4]);
    assert_eq!(data(&nodes, a).num_immediate_events, 0);
}

#[test]
fn interleaved_immediate_events_reach_their_nodes_in_order() {
    let (mut nodes, a, b) = two_nodes();
    let mut s: EventScheduler<u32> = EventScheduler::new(32, 8, BufferOutOfSpaceMode::AllocateOnAudioThread);
    let mut group = vec![immediate(a, 1), immediate(b, 2), immediate(a, 3), immediate(a, 4), immediate(b, 5)];
    s.push_event_group(&mut group, &mut nodes);
    s.prepare_process_block(8, &mut nodes);
    let plan_a = s.process_node(a, data_mut(&mut nodes, a), 8, 0);
    assert_eq!(plan_a.len(), 1);
    assert_eq!(
        plan_a[0].events,
        vec![NodeEventListIndex::Immediate(0), NodeEventListIndex::Immediate(2), NodeEventListIndex::Immediate(3)]
    );
    assert_eq!(payloads(&mut s, &plan_a[0].events), vec![1, 3, 4]);
    let plan_b = s.process_node(b, data_mut(&mut nodes, b), 8, 0);
    assert_eq!(payloads(&mut s, &plan_b[0].events), vec![2, 5]);
    assert_eq!(data(&nodes, a).num_immediate_events, 0);
    assert_eq!(data(&nodes, b).num_immediate_events, 0);
}

#[test]
fn immediate_events_past_the_eighth_clump_are_still_delivered() {
    let (mut nodes, a, b) = two_nodes();
    let mut s: EventScheduler<u32> = EventScheduler::new(64, 8, BufferOutOfSpaceMode::AllocateOnAudioThread);
    let mut group = Vec::new();
    for i in 0..12u32 {
        group.push(immediate(a, 100 + i));
        group.push(immediate(b, 200 + i));
    }
    s.push_event_group(&mut group, &mut nodes);
    s.prepare_process_block(8, &mut nodes);
    let plan_b = s.process_node(b, data_mut(&mut nodes, b), 8, 0);
    assert_eq!(payloads(&mut s, &plan_b[0].events), (0..12u32).map(|i| 200 + i).collect::<Vec<_>>());
    let plan_a = s.process_node(a, data_mut(&mut nodes, a), 8, 0);
    assert_eq!(payloads(&mut s, &plan_a[0].events), (0..12u32).map(|i| 100 + i).collect::<Vec<_>>());
}

#[test]
fn nodes_added_and_removed_keep_their_event_records() {
    let (mut nodes, a, b) = two_nodes();
    let mut s: EventScheduler<u32> = EventScheduler::new(8, 8, BufferOutOfSpaceMode::AllocateOnAudioThread);
    let mut group = vec![at(a, EventTimeKind::Samples, 10, 1), at(b, EventTimeKind::Samples, 20, 2)];
    s.push_event_group(&mut group, &mut nodes);
    s.remove_node(&mut nodes, b);
    assert!(nodes.get(thunderdome::Index::from_bits(b.0).unwrap()).is_none());
    assert!(!s.add_node(&mut nodes, NodeID(5)));
    // The next generation of the slot that `b` had.
    let c = NodeID(b.0 + (1u64 << 32));
    assert!(s.add_node(&mut nodes, c));
    assert_eq!(data(&nodes, c).num_scheduled_musical_events, 0);
    assert_eq!(data(&nodes, c).num_scheduled_non_musical_events, 0);
    assert_eq!(data(&nodes, a).num_scheduled_non_musical_events, 1);
    s.prepare_process_block(100, &mut nodes);
    assert_eq!(data(&nodes, a).num_scheduled_events_this_block, 1);
    assert_eq!(data(&nodes, c).num_scheduled_events_this_block, 0);
}

#[test]
fn an_earlier_event_marks_the_list_for_sorting() {
    let (mut nodes, a, _b) = two_nodes();
    let mut s: EventScheduler<u32> = EventScheduler::new(8, 8, BufferOutOfSpaceMode::AllocateOnAudioThread);
    assert!(!s.scheduled_events_need_sorting());
    let mut group = vec![at(a, EventTimeKind::Samples, 100, 1)];
    s.push_event_group(&mut group, &mut nodes);
    assert!(!s.scheduled_events_need_sorting());
    let mut group = vec![at(a, EventTimeKind::Samples, 50, 2)];
    s.push_event_group(&mut group, &mut nodes);
    assert!(s.scheduled_events_need_sorting());
}

#[test]
fn new_node_records_start_empty() {
    let s: EventScheduler<u32> = EventScheduler::new(8, 8, BufferOutOfSpaceMode::AllocateOnAudioThread);
    let mut nodes = s.new_node_records(4);
    assert_eq!(nodes.len(), 0);
    let a = NodeID(1u64 << 32);
    assert!(s.add_node(&mut nodes, a));
    assert_eq!(nodes.len(), 1);
}

#[test]
fn a_group_fits_where_the_buffers_have_room() {
    let (nodes, a, _b) = two_nodes();
    let s: EventScheduler<u32> = EventScheduler::new(1, 2, BufferOutOfSpaceMode::Panic);
    let gone = NodeID(99u64 << 32);
    let fits = vec![at(a, EventTimeKind::Samples, 1, 1), at(a, EventTimeKind::Samples, 2, 2), immediate(a, 3), immediate(gone, 4)];
    assert!(s.group_fits(&fits, &nodes));
    let too_many = vec![immediate(a, 1), immediate(a, 2)];
    assert!(!s.group_fits(&too_many, &nodes));
    let grows: EventScheduler<u32> = EventScheduler::new(1, 2, BufferOutOfSpaceMode::AllocateOnAudioThread);
    assert!(grows.group_fits(&too_many, &nodes));
}

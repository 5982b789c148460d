use firewheel::channel::{ChannelConfig, ChannelCount};
use firewheel::context::FirewheelContext;
use firewheel::config::ClearScheduledEventsType;
use firewheel::error::{AddEdgeError, CompileGraphError, RemoveNodeError};
use firewheel::event::{EventTime, EventTimeKind};
use firewheel::graph::{check_channel_config, AudioGraph, GraphConfig, NodeInfo};
use firewheel::ids::NodeID;

fn config() -> GraphConfig {
    GraphConfig {
        num_graph_inputs: ChannelCount::new(0).unwrap(),
        num_graph_outputs: ChannelCount::new(2).unwrap(),
        initial_node_capacity: 16,
        initial_edge_capacity: 16,
        initial_event_group_capacity: 16,
    }
}

fn add(graph: &mut AudioGraph<u32>, inputs: u32, outputs: u32) -> NodeID {
    let cfg = ChannelConfig {
        num_inputs: ChannelCount::new(inputs).unwrap(),
        num_outputs: ChannelCount::new(outputs).unwrap(),
    };
    let info = NodeInfo {
        num_min_supported_inputs: ChannelCount::zero(),
        num_max_supported_inputs: ChannelCount::max(),
        num_min_supported_outputs: ChannelCount::zero(),
        num_max_supported_outputs: ChannelCount::max(),
        default_channel_config: cfg,
        equal_num_ins_and_outs: false,
        updates: false,
    };
    let c = check_channel_config(&info, None).unwrap();
    graph.add_node(c, &info)
}

fn pairs(ctx: &FirewheelContext<u32>) -> Vec<(u32, u32)> {
    let mut v: Vec<(u32, u32)> = ctx.graph.edges().iter().map(|e| (e.src_port, e.dst_port)).collect();
    v.sort();
    v
}

#[test]
fn auto_connect_pairs_ports_up_to_the_smaller_count() {
    let mut ctx: FirewheelContext<u32> = FirewheelContext::new(&config());
    let a = add(&mut ctx.graph, 0, 3);
    let b = add(&mut ctx.graph, 2, 0);
    let ids = ctx.auto_connect(a, b, true).unwrap();
    assert_eq!(ids.len(), 2);
    assert_eq!(pairs(&ctx), vec![(0, 0), (1, 1)]);
    assert_eq!(ctx.auto_connect(NodeID(u64::MAX), b, true), Err(AddEdgeError::SrcNodeNotFound(NodeID(u64::MAX))));
    assert_eq!(ctx.auto_connect(a, NodeID(u64::MAX), true), Err(AddEdgeError::DstNodeNotFound(NodeID(u64::MAX))));
}

#[test]
fn connect_stereo_spreads_a_mono_source() {
    let mut ctx: FirewheelContext<u32> = FirewheelContext::new(&config());
    let mono = add(&mut ctx.graph, 0, 1);
    let dst = add(&mut ctx.graph, 2, 0);
    ctx.connect_stereo(mono, dst, true).unwrap();
    assert_eq!(pairs(&ctx), vec![(0, 0), (0, 1)]);
}

#[test]
fn connect_stereo_connects_stereo_pairs() {
    let mut ctx: FirewheelContext<u32> = FirewheelContext::new(&config());
    let src = add(&mut ctx.graph, 0, 4);
    let dst = add(&mut ctx.graph, 3, 0);
    ctx.connect_stereo(src, dst, false).unwrap();
    assert_eq!(pairs(&ctx), vec![(0, 0), (1, 1)]);
}

#[test]
fn connect_stereo_refuses_what_cannot_be_stereo() {
    let mut ctx: FirewheelContext<u32> = FirewheelContext::new(&config());
    let src = add(&mut ctx.graph, 0, 2);
    let mono_dst = add(&mut ctx.graph, 1, 0);
    let silent = add(&mut ctx.graph, 0, 0);
    let dst = add(&mut ctx.graph, 2, 0);
    assert_eq!(
        ctx.connect_stereo(src, mono_dst, true),
        Err(AddEdgeError::InPortOutOfRange {
            node: mono_dst,
            port_idx: 1,
            num_in_ports: ChannelCount::new(1).unwrap()
        })
    );
    assert_eq!(
        ctx.connect_stereo(silent, dst, true),
        Err(AddEdgeError::InPortOutOfRange { node: silent, port_idx: 0, num_in_ports: ChannelCount::new(0).unwrap() })
    );
    assert!(ctx.graph.edges().is_empty());
}

#[test]
fn context_queues_events_only_for_existing_nodes() {
    let mut ctx: FirewheelContext<u32> = FirewheelContext::new(&config());
    let a = add(&mut ctx.graph, 0, 1);
    ctx.queue_event_for(a, 1);
    ctx.queue_event_for(NodeID(u64::MAX), 2);
    ctx.schedule_event_for(a, 3, Some(EventTime { kind: EventTimeKind::Samples, samples: 48 }));
    let events = ctx.graph.flush_events().unwrap();
    assert_eq!(events.len(), 2);
    assert_eq!((events[0].event, events[0].time), (1, None));
    assert_eq!(events[1].event, 3);
    assert_eq!(events[1].time, Some(EventTime { kind: EventTimeKind::Samples, samples: 48 }));
}

#[test]
fn cancel_requests_wait_for_the_next_update() {
    let mut ctx: FirewheelContext<u32> = FirewheelContext::new(&config());
    let a = add(&mut ctx.graph, 0, 1);
    ctx.cancel_all_scheduled_events(ClearScheduledEventsType::MusicalOnly);
    ctx.cancel_scheduled_events_for(a, ClearScheduledEventsType::All);
    assert_eq!(ctx.queued_clear_scheduled_events.len(), 2);
    assert_eq!(ctx.queued_clear_scheduled_events[0].node_id, None);
    assert_eq!(ctx.queued_clear_scheduled_events[1].node_id, Some(a));
    assert_eq!(ctx.queued_clear_scheduled_events[1].event_type, ClearScheduledEventsType::All);
}

#[test]
fn cycles_are_reported_as_compile_errors() {
    let mut ctx: FirewheelContext<u32> = FirewheelContext::new(&config());
    let a = add(&mut ctx.graph, 1, 1);
    let b = add(&mut ctx.graph, 1, 1);
    assert_eq!(ctx.cycle_detected(), Ok(()));
    ctx.graph.connect(a, b, &[(0, 0)], false).unwrap();
    ctx.graph.connect(b, a, &[(0, 0)], false).unwrap();
    assert_eq!(ctx.cycle_detected(), Err(CompileGraphError::CycleDetected));
}

#[test]
fn the_default_graph_has_stereo_outputs() {
    let c = GraphConfig::default();
    assert_eq!(c.num_graph_inputs.get(), 0);
    assert_eq!(c.num_graph_outputs.get(), 2);
    assert_eq!((c.initial_node_capacity, c.initial_edge_capacity, c.initial_event_group_capacity), (128, 256, 128));
}

#[test]
fn removing_a_node_takes_its_edges_and_refuses_the_graph_nodes() {
    let mut ctx: FirewheelContext<u32> = FirewheelContext::new(&config());
    let a = add(&mut ctx.graph, 0, 2);
    let gout = ctx.graph.graph_out_node();
    let gin = ctx.graph.graph_in_node();
    let edges = ctx.auto_connect(a, gout, true).unwrap();
    assert_eq!(ctx.remove_node(gin), Err(RemoveNodeError::CannotRemoveGraphInNode));
    assert_eq!(ctx.remove_node(gout), Err(RemoveNodeError::CannotRemoveGraphOutNode));
    let mut removed = ctx.remove_node(a).unwrap();
    removed.sort_by_key(|e| e.0);
    let mut expected = edges.clone();
    expected.sort_by_key(|e| e.0);
    assert_eq!(removed, expected);
    assert!(ctx.graph.node_info(a).is_none());
    assert_eq!(ctx.graph.edges().len(), 0);
    assert_eq!(ctx.remove_node(a), Ok(Vec::new()));
}

#[test]
fn a_new_context_holds_only_the_graph_nodes() {
    let ctx: FirewheelContext<u32> = FirewheelContext::new(&config());
    assert_eq!(ctx.graph.nodes().len(), 2);
    assert!(ctx.graph.edges().is_empty());
    assert!(ctx.graph.needs_compile());
    let gin = ctx.graph.node_info(ctx.graph.graph_in_node()).unwrap();
    let gout = ctx.graph.node_info(ctx.graph.graph_out_node()).unwrap();
    assert_eq!(gin.channel_config.num_inputs.get(), 0);
    assert_eq!(gin.channel_config.num_outputs.get(), 0);
    assert_eq!(gout.channel_config.num_inputs.get(), 2);
    assert_eq!(gout.channel_config.num_outputs.get(), 0);
}

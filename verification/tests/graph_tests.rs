use firewheel::channel::{ChannelConfig, ChannelCount};
use firewheel::error::AddEdgeError;
use firewheel::graph::{check_channel_config, AudioGraph, GraphConfig, NodeEvent, NodeInfo};
use firewheel::ids::{EdgeID, NodeID};

fn config(inputs: u32, outputs: u32) -> GraphConfig {
    GraphConfig {
        num_graph_inputs: ChannelCount::new(inputs).unwrap(),
        num_graph_outputs: ChannelCount::new(outputs).unwrap(),
        initial_node_capacity: 128,
        initial_edge_capacity: 256,
        initial_event_group_capacity: 128,
    }
}

fn cc(inputs: u32, outputs: u32) -> ChannelConfig {
    ChannelConfig {
        num_inputs: ChannelCount::new(inputs).unwrap(),
        num_outputs: ChannelCount::new(outputs).unwrap(),
    }
}

fn dummy_info(channel_config: ChannelConfig) -> NodeInfo {
    NodeInfo {
        num_min_supported_inputs: ChannelCount::zero(),
        num_max_supported_inputs: ChannelCount::max(),
        num_min_supported_outputs: ChannelCount::zero(),
        num_max_supported_outputs: ChannelCount::max(),
        default_channel_config: channel_config,
        equal_num_ins_and_outs: false,
        updates: false,
    }
}

fn add_dummy_node(graph: &mut AudioGraph<u32>, inputs: u32, outputs: u32) -> NodeID {
    let info = dummy_info(cc(inputs, outputs));
    let c = check_channel_config(&info, None).unwrap();
    graph.add_node(c, &info)
}

#[test]
fn cycle_detection() {
    let mut graph: AudioGraph<u32> = AudioGraph::new(&config(0, 2));

    let node1 = add_dummy_node(&mut graph, 1, 1);
    let node2 = add_dummy_node(&mut graph, 2, 1);
    let node3 = add_dummy_node(&mut graph, 1, 1);

    // A zero input/output node shouldn't cause a cycle to be detected.
    let _node4 = add_dummy_node(&mut graph, 0, 0);

    graph.connect(node1, node2, &[(0, 0)], false).unwrap();
    graph.connect(node2, node3, &[(0, 0)], false).unwrap();
    let edge3 = graph.connect(node3, node1, &[(0, 0)], false).unwrap()[0];

    assert!(graph.cycle_detected());

    graph.disconnect_by_edge_id(edge3);

    assert!(!graph.cycle_detected());

    graph.connect(node3, node2, &[(0, 1)], false).unwrap();

    assert!(graph.cycle_detected());
}

#[test]
fn connect_refuses_cycle_when_checking() {
    let mut graph: AudioGraph<u32> = AudioGraph::new(&config(0, 2));
    let a = add_dummy_node(&mut graph, 1, 1);
    let b = add_dummy_node(&mut graph, 1, 1);
    graph.connect(a, b, &[(0, 0)], true).unwrap();
    let before = graph.edges().len();
    assert_eq!(graph.connect(b, a, &[(0, 0)], true), Err(AddEdgeError::CycleDetected));
    assert_eq!(graph.edges().len(), before);
    assert!(!graph.cycle_detected());
}

#[test]
fn connect_errors() {
    let mut graph: AudioGraph<u32> = AudioGraph::new(&config(1, 2));
    let a = add_dummy_node(&mut graph, 1, 2);
    let b = add_dummy_node(&mut graph, 2, 1);
    let missing = NodeID(u64::MAX);
    assert_eq!(graph.connect(missing, b, &[(0, 0)], false), Err(AddEdgeError::SrcNodeNotFound(missing)));
    assert_eq!(graph.connect(a, missing, &[(0, 0)], false), Err(AddEdgeError::DstNodeNotFound(missing)));
    assert_eq!(graph.connect(a, a, &[(0, 0)], false), Err(AddEdgeError::CycleDetected));
    match graph.connect(a, b, &[(2, 0)], false) {
        Err(AddEdgeError::OutPortOutOfRange { node, port_idx, num_out_ports }) => {
            assert_eq!(node, a);
            assert_eq!(port_idx, 2);
            assert_eq!(num_out_ports.get(), 2);
        }
        other => panic!("unexpected {:?}", other),
    }
    match graph.connect(a, b, &[(0, 5)], false) {
        Err(AddEdgeError::InPortOutOfRange { node, port_idx, num_in_ports }) => {
            assert_eq!(node, b);
            assert_eq!(port_idx, 5);
            assert_eq!(num_in_ports.get(), 2);
        }
        other => panic!("unexpected {:?}", other),
    }
    graph.connect(a, b, &[(0, 0)], false).unwrap();
    assert_eq!(graph.connect(a, b, &[(1, 1), (0, 0)], false), Err(AddEdgeError::EdgeAlreadyExists));
    // Nothing was added by the refused call.
    assert_eq!(graph.edges().len(), 1);
}

#[test]
fn connect_skips_repeated_pairs_and_allows_many_to_one() {
    let mut graph: AudioGraph<u32> = AudioGraph::new(&config(1, 2));
    let a = add_dummy_node(&mut graph, 0, 2);
    let b = add_dummy_node(&mut graph, 0, 1);
    let c = add_dummy_node(&mut graph, 2, 0);
    let ids = graph.connect(a, c, &[(0, 0), (1, 1), (0, 0)], true).unwrap();
    assert_eq!(ids.len(), 2);
    let e0 = graph.edge(ids[0]).unwrap();
    assert_eq!((e0.src_port, e0.dst_port), (0, 0));
    let e1 = graph.edge(ids[1]).unwrap();
    assert_eq!((e1.src_port, e1.dst_port), (1, 1));
    // A second edge into the same input port is allowed.
    let more = graph.connect(b, c, &[(0, 0)], true).unwrap();
    assert_eq!(more.len(), 1);
    assert_eq!(graph.edges().len(), 3);
}

#[test]
fn disconnect_undoes_connect() {
    let mut graph: AudioGraph<u32> = AudioGraph::new(&config(1, 2));
    let a = add_dummy_node(&mut graph, 1, 2);
    let b = add_dummy_node(&mut graph, 2, 1);
    graph.connect(a, b, &[(0, 0)], false).unwrap();
    let before = graph.edges();
    graph.connect(a, b, &[(1, 1)], false).unwrap();
    assert_eq!(graph.edges().len(), 2);
    assert!(graph.disconnect(a, b, &[(1, 1)]));
    assert_eq!(graph.edges(), before);
    assert!(!graph.disconnect(a, b, &[(1, 1)]));
}

#[test]
fn remove_node_removes_its_edges() {
    let mut graph: AudioGraph<u32> = AudioGraph::new(&config(1, 2));
    let gin = graph.graph_in_node();
    let gout = graph.graph_out_node();
    let a = add_dummy_node(&mut graph, 1, 2);
    let e0 = graph.connect(gin, a, &[(0, 0)], false).unwrap()[0];
    let mut es = graph.connect(a, gout, &[(0, 0), (1, 1)], false).unwrap();
    es.push(e0);
    let mut removed = graph.remove_node(a).unwrap();
    removed.sort_by_key(|e: &EdgeID| e.0);
    es.sort_by_key(|e: &EdgeID| e.0);
    assert_eq!(removed, es);
    assert_eq!(graph.edges().len(), 0);
    assert!(graph.node_info(a).is_none());
    assert_eq!(graph.remove_node(gin), Err(()));
    assert_eq!(graph.remove_node(gout), Err(()));
    assert_eq!(graph.remove_node(a), Err(()));
}

#[test]
fn set_graph_channel_config_removes_edges_on_dropped_ports() {
    let mut graph: AudioGraph<u32> = AudioGraph::new(&config(2, 2));
    let gin = graph.graph_in_node();
    let gout = graph.graph_out_node();
    let a = add_dummy_node(&mut graph, 2, 2);
    graph.connect(gin, a, &[(0, 0), (1, 1)], false).unwrap();
    graph.connect(a, gout, &[(0, 0), (1, 1)], false).unwrap();
    let removed = graph.set_graph_channel_config(cc(1, 1));
    assert_eq!(removed.len(), 2);
    assert_eq!(graph.edges().len(), 2);
    assert_eq!(graph.node_info(gin).unwrap().channel_config.num_outputs.get(), 1);
    assert_eq!(graph.node_info(gout).unwrap().channel_config.num_inputs.get(), 1);
}

#[test]
fn events_are_queued_only_for_existing_nodes() {
    let mut graph: AudioGraph<u32> = AudioGraph::new(&config(0, 2));
    let a = add_dummy_node(&mut graph, 0, 2);
    assert!(graph.flush_events().is_none());
    graph.queue_event(NodeEvent { node_id: a, time: None, event: 7 });
    graph.queue_event(NodeEvent { node_id: NodeID(u64::MAX), time: None, event: 8 });
    let group = graph.flush_events().unwrap();
    assert_eq!(group.len(), 1);
    assert_eq!(group[0].event, 7);
    assert!(graph.flush_events().is_none());
    graph.return_event_group(group);
}

#[test]
fn reset_keeps_only_graph_io() {
    let mut graph: AudioGraph<u32> = AudioGraph::new(&config(1, 1));
    let gin = graph.graph_in_node();
    let gout = graph.graph_out_node();
    let a = add_dummy_node(&mut graph, 1, 1);
    graph.connect(gin, a, &[(0, 0)], false).unwrap();
    graph.connect(gin, gout, &[(0, 0)], false).unwrap();
    graph.mark_compiled();
    graph.reset();
    assert_eq!(graph.nodes().len(), 2);
    assert_eq!(graph.edges().len(), 1);
    assert!(graph.needs_compile());
    assert_eq!(graph.mark_compiled(), vec![a]);
    assert!(!graph.needs_compile());
}

#[test]
fn check_channel_config_rules() {
    let mut info = dummy_info(cc(4, 2));
    info.num_min_supported_inputs = ChannelCount::mono();
    assert!(check_channel_config(&info, Some(cc(0, 2))).is_err());
    assert_eq!(check_channel_config(&info, None).unwrap(), cc(4, 2));
    info.equal_num_ins_and_outs = true;
    assert!(check_channel_config(&info, None).is_err());
    assert_eq!(check_channel_config(&info, Some(cc(2, 2))).unwrap(), cc(2, 2));
}

#[test]
fn node_capacity_covers_the_nodes_held() {
    let mut graph: AudioGraph<u32> = AudioGraph::new(&config(0, 2));
    for _ in 0..5 {
        add_dummy_node(&mut graph, 1, 1);
    }
    assert!(graph.current_node_capacity() >= 7);
}

#[test]
fn a_refused_cycle_leaves_the_graph_as_it_was() {
    let mut graph: AudioGraph<u32> = AudioGraph::new(&config(1, 1));
    let a = add_dummy_node(&mut graph, 1, 1);
    let b = add_dummy_node(&mut graph, 1, 1);
    graph.connect(a, b, &[(0, 0)], true).unwrap();
    graph.mark_compiled();
    assert!(!graph.needs_compile());
    assert_eq!(graph.connect(b, a, &[(0, 0)], true), Err(AddEdgeError::CycleDetected));
    assert!(!graph.needs_compile());
    assert_eq!(graph.edges().len(), 1);
}

#[test]
fn try_add_node_refuses_an_unsupported_config() {
    let mut graph: AudioGraph<u32> = AudioGraph::new(&config(1, 1));
    let mut info = dummy_info(cc(2, 2));
    info.num_max_supported_inputs = ChannelCount::new(2).unwrap();
    let before = graph.nodes().len();
    assert_eq!(
        graph.try_add_node(&info, Some(cc(3, 2))),
        Err(firewheel::error::NodeError::InvalidChannelConfig { channel_config: cc(3, 2) })
    );
    assert_eq!(graph.nodes().len(), before);
    let id = graph.try_add_node(&info, None).unwrap();
    assert_eq!(graph.node_info(id).unwrap().channel_config, cc(2, 2));
    assert_eq!(graph.nodes().len(), before + 1);
}

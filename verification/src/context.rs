//! The graph-facing part of the engine's context: connecting nodes by
//! their port counts.
use crate::config::ClearScheduledEventsType;
use crate::error::{AddEdgeError, CompileGraphError, RemoveNodeError};
use crate::event::{EventTime, NodeEvent};
use crate::scheduler::ClearScheduledEventsEvent;
use crate::graph::{
    dedup, edge_id_bits, extends_with, is_acyclic, is_acyclic_with_edge, keys_touching, AudioGraph, GraphConfig,
};
use crate::channel::{ChannelConfig, ChannelCount};
use crate::ids::{EdgeID, NodeID, PortIdx};
use vstd::prelude::*;

verus! {

/// What connecting `src` to `dst` through the port pairs `ps` does (see
/// [`AudioGraph::connect`]): `before` is the graph before, `after` the
/// graph after, `r` the result.
pub open spec fn connect_outcome<E>(
    before: AudioGraph<E>,
    after: AudioGraph<E>,
    src: NodeID,
    dst: NodeID,
    ps: Seq<(PortIdx, PortIdx)>,
    check_for_cycles: bool,
    r: Result<Vec<EdgeID>, AddEdgeError>,
) -> bool {
    &&& after.wf()
    &&& after.same_nodes(&before)
    &&& before.connect_error(src, dst, ps) matches Some(e) ==> r == Err::<Vec<EdgeID>, AddEdgeError>(e) && after == before
    &&& before.connect_error(src, dst, ps) is None ==> {
        let added = dedup(ps);
        &&& (r is Ok <==> (!check_for_cycles || is_acyclic_with_edge(
            before.nodes_view().dom(),
            before.edges_view(),
            src.0,
            dst.0,
            added.len() > 0,
        )))
        &&& r matches Ok(ids) ==> extends_with(after.edges_view(), before.edges_view(), edge_id_bits(ids@), src, dst, added)
            && after.needs_compile_view()
        &&& r is Err ==> r == Err::<Vec<EdgeID>, AddEdgeError>(AddEdgeError::CycleDetected) && after.same_graph(&before)
    }
}

/// The port pairs `(0, 0)`, `(1, 1)`, ... of the first `n` ports.
pub open spec fn same_port_pairs(n: u32) -> Seq<(PortIdx, PortIdx)> {
    Seq::new(n as nat, |i: int| (i as u32, i as u32))
}

/// The port pairs that connect a node with `num_outputs` outputs to one
/// with `num_inputs` inputs in stereo, where they can be.
pub open spec fn stereo_port_pairs(num_outputs: u32, num_inputs: u32) -> Option<Seq<(PortIdx, PortIdx)>> {
    if num_outputs >= 2 && num_inputs >= 2 {
        Some(seq![(0u32, 0u32), (1u32, 1u32)])
    } else if num_outputs == 1 && num_inputs >= 2 {
        Some(seq![(0u32, 0u32), (0u32, 1u32)])
    } else {
        None
    }
}

/// The context of an audio graph engine, as far as its graph goes.
pub struct FirewheelContext<E> {
    pub graph: AudioGraph<E>,
    /// Requests to cancel scheduled events, sent on the next update.
    pub queued_clear_scheduled_events: Vec<ClearScheduledEventsEvent>,
}

impl<E> FirewheelContext<E> {
    /// A context around a new graph, which holds only the graph input node
    /// (with `config.num_graph_inputs` outputs) and the graph output node
    /// (with `config.num_graph_outputs` inputs), and no edges.
    pub fn new(config: &GraphConfig) -> (r: Self)
        ensures
            r.graph.wf(),
            r.graph.nodes_view().dom() == set![r.graph.graph_in_id_view().0, r.graph.graph_out_id_view().0],
            r.graph.nodes_view()[r.graph.graph_in_id_view().0].channel_config == (ChannelConfig {
                num_inputs: ChannelCount::zero_spec(),
                num_outputs: config.num_graph_inputs,
            }),
            r.graph.nodes_view()[r.graph.graph_out_id_view().0].channel_config == (ChannelConfig {
                num_inputs: config.num_graph_outputs,
                num_outputs: ChannelCount::zero_spec(),
            }),
            !r.graph.nodes_view()[r.graph.graph_in_id_view().0].activated,
            !r.graph.nodes_view()[r.graph.graph_out_id_view().0].activated,
            r.graph.edges_view().is_empty(),
            r.graph.needs_compile_view(),
            r.graph.queued_events().len() == 0,
            r.graph.removed_since_compile().len() == 0,
            r.graph.pending_deactivations().is_empty(),
            r.queued_clear_scheduled_events@.len() == 0,
    {
        FirewheelContext { graph: AudioGraph::new(config), queued_clear_scheduled_events: Vec::new() }
    }

    /// `Err(CycleDetected)` where the graph holds a cycle; the graph is left
    /// as it is.
    pub fn cycle_detected(&mut self) -> (r: Result<(), CompileGraphError>)
        requires
            old(self).graph.wf(),
        ensures
            final(self).graph == old(self).graph,
            final(self).queued_clear_scheduled_events == old(self).queued_clear_scheduled_events,
            r == (if is_acyclic(old(self).graph.nodes_view().dom(), old(self).graph.edges_view()) {
                Ok::<(), CompileGraphError>(())
            } else {
                Err::<(), CompileGraphError>(CompileGraphError::CycleDetected)
            }),
    {
        if self.graph.cycle_detected() {
            Err(CompileGraphError::CycleDetected)
        } else {
            Ok(())
        }
    }

    /// Queues an event for a node's processor, to be handled as soon as the
    /// processor receives it; it is dropped if no node has the given ID.
    pub fn queue_event_for(&mut self, node_id: NodeID, event: E)
        requires
            old(self).graph.wf(),
        ensures
            final(self).graph.wf(),
            final(self).graph.queued_events() == (if old(self).graph.nodes_view().contains_key(node_id.0) {
                old(self).graph.queued_events().push(NodeEvent { node_id, time: None, event })
            } else {
                old(self).graph.queued_events()
            }),
            final(self).graph.nodes_view() == old(self).graph.nodes_view(),
            final(self).graph.edges_view() == old(self).graph.edges_view(),
            final(self).queued_clear_scheduled_events == old(self).queued_clear_scheduled_events,
    {
        self.graph.queue_event(NodeEvent { node_id, time: None, event });
    }

    /// Queues an event for a node's processor at the given time (as soon as
    /// it is received where `time` is `None`); it is dropped if no node has
    /// the given ID.
    pub fn schedule_event_for(&mut self, node_id: NodeID, event: E, time: Option<EventTime>)
        requires
            old(self).graph.wf(),
        ensures
            final(self).graph.wf(),
            final(self).graph.queued_events() == (if old(self).graph.nodes_view().contains_key(node_id.0) {
                old(self).graph.queued_events().push(NodeEvent { node_id, time, event })
            } else {
                old(self).graph.queued_events()
            }),
            final(self).graph.nodes_view() == old(self).graph.nodes_view(),
            final(self).graph.edges_view() == old(self).graph.edges_view(),
            final(self).queued_clear_scheduled_events == old(self).queued_clear_scheduled_events,
    {
        self.graph.queue_event(NodeEvent { node_id, time, event });
    }

    /// Asks for the scheduled events of the given kind to be cancelled for
    /// all nodes, on the next update.
    pub fn cancel_all_scheduled_events(&mut self, event_type: ClearScheduledEventsType)
        ensures
            final(self).graph == old(self).graph,
            final(self).queued_clear_scheduled_events@ == old(self).queued_clear_scheduled_events@.push(
                ClearScheduledEventsEvent { node_id: None, event_type },
            ),
    {
        self.queued_clear_scheduled_events.push(ClearScheduledEventsEvent { node_id: None, event_type });
    }

    /// Asks for the scheduled events of the given kind to be cancelled for
    /// one node, on the next update.
    pub fn cancel_scheduled_events_for(&mut self, node_id: NodeID, event_type: ClearScheduledEventsType)
        ensures
            final(self).graph == old(self).graph,
            final(self).queued_clear_scheduled_events@ == old(self).queued_clear_scheduled_events@.push(
                ClearScheduledEventsEvent { node_id: Some(node_id), event_type },
            ),
    {
        self.queued_clear_scheduled_events.push(ClearScheduledEventsEvent { node_id: Some(node_id), event_type });
    }

    /// Removes a node from the graph together with every edge connected to
    /// it, and returns the IDs of those edges (none where no node has the
    /// given ID, and the graph is left as it is). Refused for the graph
    /// input and output nodes, leaving the graph as it is.
    pub fn remove_node(&mut self, node_id: NodeID) -> (r: Result<Vec<EdgeID>, RemoveNodeError>)
        requires
            old(self).graph.wf(),
        ensures
            final(self).graph.wf(),
            final(self).queued_clear_scheduled_events == old(self).queued_clear_scheduled_events,
            node_id == old(self).graph.graph_in_id_view() ==> r == Err::<Vec<EdgeID>, RemoveNodeError>(
                RemoveNodeError::CannotRemoveGraphInNode,
            ),
            node_id == old(self).graph.graph_out_id_view() ==> r == Err::<Vec<EdgeID>, RemoveNodeError>(
                RemoveNodeError::CannotRemoveGraphOutNode,
            ),
            r is Err <==> (node_id == old(self).graph.graph_in_id_view() || node_id == old(self).graph.graph_out_id_view()),
            r is Err || !old(self).graph.nodes_view().contains_key(node_id.0) ==> final(self).graph == old(self).graph,
            !old(self).graph.nodes_view().contains_key(node_id.0) ==> (r matches Ok(ids) ==> ids@.len() == 0),
            r matches Ok(ids) ==> {
                &&& !final(self).graph.nodes_view().contains_key(node_id.0)
                &&& edge_id_bits(ids@).no_duplicates()
                &&& edge_id_bits(ids@).to_set() == keys_touching(old(self).graph.edges_view(), node_id)
                &&& final(self).graph.edges_view() == old(self).graph.edges_view().remove_keys(
                    keys_touching(old(self).graph.edges_view(), node_id),
                )
                &&& final(self).graph.nodes_view() == old(self).graph.nodes_view().remove(node_id.0)
                &&& final(self).graph.graph_in_id_view() == old(self).graph.graph_in_id_view()
                &&& final(self).graph.graph_out_id_view() == old(self).graph.graph_out_id_view()
                &&& final(self).graph.queued_events() == old(self).graph.queued_events()
            },
    {
        proof {
            self.graph.lemma_wf_shape();
        }
        if node_id == self.graph.graph_in_node() {
            return Err(RemoveNodeError::CannotRemoveGraphInNode);
        }
        if node_id == self.graph.graph_out_node() {
            return Err(RemoveNodeError::CannotRemoveGraphOutNode);
        }
        match self.graph.remove_node(node_id) {
            Ok(ids) => Ok(ids),
            Err(()) => {
                proof {
                    assert(keys_touching(old(self).graph.edges_view(), node_id) =~= Set::<u64>::empty()) by {
                        assert forall|k: u64| !keys_touching(old(self).graph.edges_view(), node_id).contains(k) by {
                            if keys_touching(old(self).graph.edges_view(), node_id).contains(k) {
                                assert(old(self).graph.edge_wf(k, old(self).graph.edges_view()[k]));
                            }
                        }
                    }
                    assert(old(self).graph.edges_view().remove_keys(Set::<u64>::empty()) =~= old(self).graph.edges_view());
                    assert(old(self).graph.nodes_view().remove(node_id.0) =~= old(self).graph.nodes_view());
                    assert(edge_id_bits(Seq::<EdgeID>::empty()) =~= Seq::<u64>::empty());
                }
                Ok(Vec::new())
            },
        }
    }

    /// Connects the first ports of `src_node`'s outputs to the same ports of
    /// `dst_node`'s inputs, as many as both have (port 0 to port 0, port 1 to
    /// port 1, ...). Fails, leaving the graph as it is, when either node is
    /// not in the graph; otherwise connects as [`AudioGraph::connect`] does.
    pub fn auto_connect(&mut self, src_node: NodeID, dst_node: NodeID, check_for_cycles: bool) -> (r: Result<
        Vec<EdgeID>,
        AddEdgeError,
    >)
        requires
            old(self).graph.wf(),
            old(self).graph.edges_view().dom().len() + 64 < u32::MAX,
        ensures
            !old(self).graph.nodes_view().contains_key(src_node.0) ==> r == Err::<Vec<EdgeID>, AddEdgeError>(
                AddEdgeError::SrcNodeNotFound(src_node),
            ) && final(self).graph == old(self).graph,
            old(self).graph.nodes_view().contains_key(src_node.0) && !old(self).graph.nodes_view().contains_key(dst_node.0)
                ==> r == Err::<Vec<EdgeID>, AddEdgeError>(AddEdgeError::DstNodeNotFound(dst_node)) && final(self).graph == old(
                self,
            ).graph,
            old(self).graph.nodes_view().contains_key(src_node.0) && old(self).graph.nodes_view().contains_key(dst_node.0)
                ==> connect_outcome(
                old(self).graph,
                final(self).graph,
                src_node,
                dst_node,
                same_port_pairs(
                    if old(self).graph.num_outputs_of(src_node.0) < old(self).graph.num_inputs_of(dst_node.0) {
                        old(self).graph.num_outputs_of(src_node.0)
                    } else {
                        old(self).graph.num_inputs_of(dst_node.0)
                    },
                ),
                check_for_cycles,
                r,
            ),
    {
        let src = match self.graph.node_info(src_node) {
            Some(e) => e,
            None => return Err(AddEdgeError::SrcNodeNotFound(src_node)),
        };
        let dst = match self.graph.node_info(dst_node) {
            Some(e) => e,
            None => return Err(AddEdgeError::DstNodeNotFound(dst_node)),
        };
        let num_out = src.channel_config.num_outputs.get();
        let num_in = dst.channel_config.num_inputs.get();
        let n = if num_out < num_in {
            num_out
        } else {
            num_in
        };
        let mut ports: Vec<(PortIdx, PortIdx)> = Vec::new();
        let mut i: u32 = 0;
        while i < n
            invariant
                i <= n,
                n <= 64,
                ports@ == same_port_pairs(i),
            decreases n - i,
        {
            ports.push((i, i));
            proof {
                assert(ports@ =~= same_port_pairs((i + 1) as u32));
            }
            i = i + 1;
        }
        let r = self.graph.connect(src_node, dst_node, ports.as_slice(), check_for_cycles);
        r
    }

    /// Connects the first two outputs of `src_node` to the first two inputs
    /// of `dst_node`: port 0 to port 0 and port 1 to port 1 where both nodes
    /// have two or more, or the one output of a mono source to both inputs.
    /// Otherwise it fails, leaving the graph as it is, with the input port
    /// out of range (that of `dst_node` where it has fewer than two inputs,
    /// else that of `src_node`); it also fails when either node is not in
    /// the graph. Connecting goes as [`AudioGraph::connect`] does.
    pub fn connect_stereo(&mut self, src_node: NodeID, dst_node: NodeID, check_for_cycles: bool) -> (r: Result<
        Vec<EdgeID>,
        AddEdgeError,
    >)
        requires
            old(self).graph.wf(),
            old(self).graph.edges_view().dom().len() + 2 < u32::MAX,
        ensures
            !old(self).graph.nodes_view().contains_key(src_node.0) ==> r == Err::<Vec<EdgeID>, AddEdgeError>(
                AddEdgeError::SrcNodeNotFound(src_node),
            ) && final(self).graph == old(self).graph,
            old(self).graph.nodes_view().contains_key(src_node.0) && !old(self).graph.nodes_view().contains_key(dst_node.0)
                ==> r == Err::<Vec<EdgeID>, AddEdgeError>(AddEdgeError::DstNodeNotFound(dst_node)) && final(self).graph == old(
                self,
            ).graph,
            old(self).graph.nodes_view().contains_key(src_node.0) && old(self).graph.nodes_view().contains_key(dst_node.0)
                ==> {
                let g = old(self).graph;
                let src_cfg = g.nodes_view()[src_node.0].channel_config;
                let dst_cfg = g.nodes_view()[dst_node.0].channel_config;
                match stereo_port_pairs(src_cfg.num_outputs.count(), dst_cfg.num_inputs.count()) {
                    Some(ps) => connect_outcome(g, final(self).graph, src_node, dst_node, ps, check_for_cycles, r),
                    None => final(self).graph == g && r == Err::<Vec<EdgeID>, AddEdgeError>(
                        if dst_cfg.num_inputs.count() < 2 {
                            AddEdgeError::InPortOutOfRange { node: dst_node, port_idx: 1, num_in_ports: dst_cfg.num_inputs }
                        } else {
                            AddEdgeError::InPortOutOfRange { node: src_node, port_idx: 0, num_in_ports: src_cfg.num_outputs }
                        },
                    ),
                }
            },
    {
        let src = match self.graph.node_info(src_node) {
            Some(e) => e,
            None => return Err(AddEdgeError::SrcNodeNotFound(src_node)),
        };
        let dst = match self.graph.node_info(dst_node) {
            Some(e) => e,
            None => return Err(AddEdgeError::DstNodeNotFound(dst_node)),
        };
        let num_out = src.channel_config.num_outputs;
        let num_in = dst.channel_config.num_inputs;
        let ports: Vec<(PortIdx, PortIdx)> = if num_out.get() >= 2 && num_in.get() >= 2 {
            vec![(0, 0), (1, 1)]
        } else if num_out.get() == 1 && num_in.get() >= 2 {
            vec![(0, 0), (0, 1)]
        } else {
            return Err(
                if num_in.get() < 2 {
                    AddEdgeError::InPortOutOfRange { node: dst_node, port_idx: 1, num_in_ports: num_in }
                } else {
                    AddEdgeError::InPortOutOfRange { node: src_node, port_idx: 0, num_in_ports: num_out }
                },
            );
        };
        proof {
            assert(ports@ == stereo_port_pairs(num_out.count(), num_in.count())->0);
        }
        self.graph.connect(src_node, dst_node, ports.as_slice(), check_for_cycles)
    }
}

} // verus!

//! The structure of the audio graph: nodes with their channel
//! configurations, and edges from output ports to input ports.
use crate::arena::{
    edge_arena_contents, edge_arena_get, edge_arena_insert, edge_arena_keys, edge_arena_new,
    edge_arena_remove, edge_arena_set, node_arena_capacity, node_arena_contains,
    node_arena_contents, node_arena_get, node_arena_insert, node_arena_keys, node_arena_new,
    node_arena_remove, node_arena_set,
};
use crate::channel::{ChannelConfig, ChannelCount};
use crate::error::{AddEdgeError, NodeError};
use crate::hashing::{
    edge_index_contains, edge_index_contents, edge_index_get, edge_index_insert, edge_index_new, edge_index_remove,
    node_map_clear, node_map_contents, node_map_insert, node_map_new, node_map_remove,
};
use crate::topo::{
    dense_edges_describe, lemma_complete_order_is_topological, lemma_stuck_implies_cycle,
    preds_listed_before,
};
use crate::ids::{edge_hash, Edge, EdgeHash, EdgeID, NodeEntry, NodeID, PortIdx};
pub use crate::event::NodeEvent;
use ahash::{AHashMap, RandomState};
use thunderdome::Arena;
use vstd::prelude::*;

verus! {

/// The sizes an [`AudioGraph`] is created with.
#[derive(Debug, Clone, Copy)]
pub struct GraphConfig {
    /// The number of input channels of the audio graph.
    pub num_graph_inputs: ChannelCount,
    /// The number of output channels of the audio graph.
    pub num_graph_outputs: ChannelCount,
    /// An initial capacity to allocate for the nodes.
    pub initial_node_capacity: u32,
    /// An initial capacity to allocate for the edges.
    pub initial_edge_capacity: u32,
    /// The initial capacity for a group of events.
    pub initial_event_group_capacity: u32,
}

impl Default for GraphConfig {
    /// No graph inputs, two graph outputs, room for 128 nodes, 256 edges and
    /// groups of 128 events.
    fn default() -> (r: GraphConfig)
        ensures
            r.num_graph_inputs.count() == 0,
            r.num_graph_outputs.count() == 2,
            r.initial_node_capacity == 128,
            r.initial_edge_capacity == 256,
            r.initial_event_group_capacity == 128,
    {
        GraphConfig {
            num_graph_inputs: ChannelCount::zero(),
            num_graph_outputs: ChannelCount::stereo(),
            initial_node_capacity: 128,
            initial_edge_capacity: 256,
            initial_event_group_capacity: 128,
        }
    }
}

/// What a node declares about the channel configurations it supports.
#[derive(Debug, Clone, Copy)]
pub struct NodeInfo {
    pub num_min_supported_inputs: ChannelCount,
    pub num_max_supported_inputs: ChannelCount,
    pub num_min_supported_outputs: ChannelCount,
    pub num_max_supported_outputs: ChannelCount,
    pub default_channel_config: ChannelConfig,
    pub equal_num_ins_and_outs: bool,
    pub updates: bool,
}

/// An audio graph.
pub struct AudioGraph<E> {
    nodes: Arena<NodeEntry>,
    edges: Arena<Edge>,
    existing_edges: AHashMap<EdgeHash, u64, RandomState>,
    graph_in_id: NodeID,
    graph_out_id: NodeID,
    needs_compile: bool,
    nodes_to_remove_from_schedule: Vec<NodeID>,
    active_nodes_to_remove: AHashMap<u64, NodeEntry, RandomState>,
    // Re-uses the allocations for groups of events.
    event_group_pool: Vec<Vec<NodeEvent<E>>>,
    event_group: Vec<NodeEvent<E>>,
    initial_event_group_capacity: usize,
}

/// Whether an edge runs from node `s` to node `d`.
pub open spec fn has_edge_between(edges: Map<u64, Edge>, s: u64, d: u64) -> bool {
    exists|k: u64|
        #![trigger edges[k]]
        edges.contains_key(k) && edges[k].src_node.0 == s && edges[k].dst_node.0 == d
}

/// Whether some edge connects the given endpoints and ports.
pub open spec fn has_edge_hash(edges: Map<u64, Edge>, h: EdgeHash) -> bool {
    exists|k: u64| #![trigger edges[k]] edges.contains_key(k) && edge_hash(edges[k]) == h
}

/// `order` lists every node exactly once, and no edge runs from a node to
/// itself or to a node listed before it.
pub open spec fn is_topological_order(order: Seq<u64>, nodes: Set<u64>, edges: Map<u64, Edge>) -> bool {
    &&& order.no_duplicates()
    &&& order.to_set() == nodes
    &&& forall|i: int, j: int|
        #![trigger order[i], order[j]]
        0 <= i <= j < order.len() ==> !has_edge_between(edges, order[j], order[i])
}

/// The graph has no cycle: its nodes can be put in topological order.
pub open spec fn is_acyclic(nodes: Set<u64>, edges: Map<u64, Edge>) -> bool {
    exists|order: Seq<u64>| is_topological_order(order, nodes, edges)
}

/// The edge from `src`'s output port `p.0` to `dst`'s input port `p.1`.
pub open spec fn edge_of(k: u64, src: NodeID, dst: NodeID, p: (PortIdx, PortIdx)) -> Edge {
    Edge { id: EdgeID(k), src_node: src, src_port: p.0, dst_node: dst, dst_port: p.1 }
}

/// The elements of `s` in order, each at its first occurrence only.
pub open spec fn dedup<A>(s: Seq<A>) -> Seq<A>
    decreases s.len(),
{
    if s.len() == 0 {
        s
    } else {
        let r = dedup(s.drop_last());
        if r.contains(s.last()) {
            r
        } else {
            r.push(s.last())
        }
    }
}

impl<E> AudioGraph<E> {
    /// The number of emptied event groups kept for re-use.
    pub closed spec fn pooled_event_groups(&self) -> nat {
        self.event_group_pool@.len()
    }

    /// The nodes of the graph, by the bits of their IDs.
    pub closed spec fn nodes_view(&self) -> Map<u64, NodeEntry> {
        node_arena_contents(self.nodes)
    }

    /// The edges of the graph, by the bits of their IDs.
    pub closed spec fn edges_view(&self) -> Map<u64, Edge> {
        edge_arena_contents(self.edges)
    }

    pub closed spec fn graph_in_id_view(&self) -> NodeID {
        self.graph_in_id
    }

    pub closed spec fn graph_out_id_view(&self) -> NodeID {
        self.graph_out_id
    }

    pub closed spec fn needs_compile_view(&self) -> bool {
        self.needs_compile
    }

    /// The events queued since the last flush.
    pub closed spec fn queued_events(&self) -> Seq<NodeEvent<E>> {
        self.event_group@
    }

    /// The nodes removed since the last compile.
    pub closed spec fn removed_since_compile(&self) -> Seq<NodeID> {
        self.nodes_to_remove_from_schedule@
    }

    /// Removed nodes whose processors were active and have not been
    /// handed back yet.
    pub closed spec fn pending_deactivations(&self) -> Map<u64, NodeEntry> {
        node_map_contents(self.active_nodes_to_remove)
    }

    pub open spec fn num_inputs_of(&self, n: u64) -> u32 {
        self.nodes_view()[n].channel_config.num_inputs.count()
    }

    pub open spec fn num_outputs_of(&self, n: u64) -> u32 {
        self.nodes_view()[n].channel_config.num_outputs.count()
    }

    /// The edge `e` stored under `k` is well-formed in this graph.
    pub open spec fn edge_wf(&self, k: u64, e: Edge) -> bool {
        &&& e.id.0 == k
        &&& self.nodes_view().contains_key(e.src_node.0)
        &&& self.nodes_view().contains_key(e.dst_node.0)
        &&& e.src_node.0 != e.dst_node.0
        &&& e.src_port < self.num_outputs_of(e.src_node.0)
        &&& e.dst_port < self.num_inputs_of(e.dst_node.0)
    }

    /// The well-formedness of the graph: every node is stored under its own
    /// ID, the graph input and output nodes exist and differ, the graph
    /// input node has no inputs and the graph output node no outputs, every
    /// edge joins two
    /// distinct existing nodes through ports that exist, no two edges join
    /// the same ports, and the edge index lists exactly the edges.
    pub closed spec fn wf(&self) -> bool {
        &&& self.nodes_view().dom().finite()
        &&& self.edges_view().dom().finite()
        &&& forall|k: u64| #[trigger]
            self.nodes_view().contains_key(k) ==> self.nodes_view()[k].id.0 == k
        &&& self.nodes_view().contains_key(self.graph_in_id.0)
        &&& self.nodes_view().contains_key(self.graph_out_id.0)
        &&& self.graph_in_id.0 != self.graph_out_id.0
        &&& self.nodes_view()[self.graph_in_id.0].channel_config.num_inputs.count() == 0
        &&& self.nodes_view()[self.graph_out_id.0].channel_config.num_outputs.count() == 0
        &&& forall|k: u64| #[trigger]
            self.edges_view().contains_key(k) ==> self.edge_wf(k, self.edges_view()[k])
        &&& forall|k: u64| #[trigger]
            self.edges_view().contains_key(k) ==> edge_index_contents(self.existing_edges).contains_key(
                edge_hash(self.edges_view()[k]),
            ) && edge_index_contents(self.existing_edges)[edge_hash(self.edges_view()[k])] == k
        &&& forall|h: EdgeHash| #[trigger]
            edge_index_contents(self.existing_edges).contains_key(h) ==> self.edges_view().contains_key(
                edge_index_contents(self.existing_edges)[h],
            ) && edge_hash(self.edges_view()[edge_index_contents(self.existing_edges)[h]]) == h
        &&& forall|i: int| 0 <= i < self.event_group_pool@.len() ==> (#[trigger] self.event_group_pool@[i])@.len() == 0
        &&& forall|k: u64| #[trigger] node_map_contents(self.active_nodes_to_remove).contains_key(k)
            ==> node_map_contents(self.active_nodes_to_remove)[k].id.0 == k
    }

    /// In a well-formed graph the graph input and output nodes exist and
    /// are distinct, the graph input node has no inputs, the graph output
    /// node has no outputs, and every edge joins two distinct existing
    /// nodes through ports that exist.
    pub proof fn lemma_wf_shape(&self)
        requires
            self.wf(),
        ensures
            self.nodes_view().contains_key(self.graph_in_id_view().0),
            self.nodes_view().contains_key(self.graph_out_id_view().0),
            self.graph_in_id_view().0 != self.graph_out_id_view().0,
            self.num_inputs_of(self.graph_in_id_view().0) == 0,
            self.num_outputs_of(self.graph_out_id_view().0) == 0,
            forall|k: u64| #[trigger]
                self.edges_view().contains_key(k) ==> self.edge_wf(k, self.edges_view()[k]),
    {
    }

    /// Creates a graph that holds only the graph input node (with
    /// `num_graph_inputs` outputs) and the graph output node (with
    /// `num_graph_outputs` inputs), and no edges.
    pub fn new(config: &GraphConfig) -> (r: Self)
        ensures
            r.wf(),
            r.nodes_view().dom() == set![r.graph_in_id_view().0, r.graph_out_id_view().0],
            r.nodes_view()[r.graph_in_id_view().0].channel_config == (ChannelConfig {
                num_inputs: ChannelCount::zero_spec(),
                num_outputs: config.num_graph_inputs,
            }),
            r.nodes_view()[r.graph_out_id_view().0].channel_config == (ChannelConfig {
                num_inputs: config.num_graph_outputs,
                num_outputs: ChannelCount::zero_spec(),
            }),
            !r.nodes_view()[r.graph_in_id_view().0].activated,
            !r.nodes_view()[r.graph_out_id_view().0].activated,
            r.edges_view().is_empty(),
            r.needs_compile_view(),
            r.queued_events().len() == 0,
            r.removed_since_compile().len() == 0,
            r.pending_deactivations().is_empty(),
    {
        let mut nodes = node_arena_new(config.initial_node_capacity as usize);
        let in_entry = NodeEntry {
            id: NodeID(0),
            channel_config: ChannelConfig {
                num_inputs: ChannelCount::zero(),
                num_outputs: config.num_graph_inputs,
            },
            activated: false,
            updates: false,
        };
        let in_k = node_arena_insert(&mut nodes, in_entry);
        let graph_in_id = NodeID(in_k);
        node_arena_set(&mut nodes, in_k, NodeEntry { id: graph_in_id, ..in_entry });
        let out_entry = NodeEntry {
            id: NodeID(0),
            channel_config: ChannelConfig {
                num_inputs: config.num_graph_outputs,
                num_outputs: ChannelCount::zero(),
            },
            activated: false,
            updates: false,
        };
        let out_k = node_arena_insert(&mut nodes, out_entry);
        let graph_out_id = NodeID(out_k);
        node_arena_set(&mut nodes, out_k, NodeEntry { id: graph_out_id, ..out_entry });

        let initial_event_group_capacity = config.initial_event_group_capacity as usize;
        let mut event_group_pool: Vec<Vec<NodeEvent<E>>> = Vec::with_capacity(16);
        let mut i: usize = 0;
        while i < 3
            invariant
                i <= 3,
                forall|j: int| 0 <= j < event_group_pool@.len() ==> (#[trigger] event_group_pool@[j])@.len() == 0,
            decreases 3 - i,
        {
            event_group_pool.push(Vec::with_capacity(initial_event_group_capacity));
            i += 1;
        }
        let r = AudioGraph {
            nodes,
            edges: edge_arena_new(config.initial_edge_capacity as usize),
            existing_edges: edge_index_new(config.initial_edge_capacity as usize),
            graph_in_id,
            graph_out_id,
            needs_compile: true,
            nodes_to_remove_from_schedule: Vec::with_capacity(
                config.initial_node_capacity as usize,
            ),
            active_nodes_to_remove: node_map_new(config.initial_edge_capacity as usize),
            event_group_pool,
            event_group: Vec::with_capacity(initial_event_group_capacity),
            initial_event_group_capacity,
        };
        assert(r.nodes_view().dom() =~= set![in_k, out_k]);
        r
    }

    /// The ID of the graph input node.
    pub fn graph_in_node(&self) -> (r: NodeID)
        ensures
            r == self.graph_in_id_view(),
    {
        self.graph_in_id
    }

    /// The ID of the graph output node.
    pub fn graph_out_node(&self) -> (r: NodeID)
        ensures
            r == self.graph_out_id_view(),
    {
        self.graph_out_id
    }

    /// Whether the graph has changed since it was last compiled.
    pub fn needs_compile(&self) -> (r: bool)
        ensures
            r == self.needs_compile_view(),
    {
        self.needs_compile
    }

    /// The number of nodes the graph can hold before it allocates again:
    /// at least the number of nodes it holds (the rest depends on the
    /// allocator).
    pub fn current_node_capacity(&self) -> (r: usize)
        ensures
            self.nodes_view().dom().finite() ==> r >= self.nodes_view().dom().len(),
    {
        node_arena_capacity(&self.nodes)
    }

    /// What the graph records of a node; `None` if no node has that ID.
    pub fn node_info(&self, node_id: NodeID) -> (r: Option<NodeEntry>)
        ensures
            r == (if self.nodes_view().contains_key(node_id.0) {
                Some(self.nodes_view()[node_id.0])
            } else {
                None
            }),
    {
        node_arena_get(&self.nodes, node_id.0)
    }

    /// The edge with the given ID; `None` if there is none.
    pub fn edge(&self, edge_id: EdgeID) -> (r: Option<Edge>)
        ensures
            r == (if self.edges_view().contains_key(edge_id.0) {
                Some(self.edges_view()[edge_id.0])
            } else {
                None
            }),
    {
        edge_arena_get(&self.edges, edge_id.0)
    }
}


impl<E> AudioGraph<E> {
    /// `self` and `other` have the same nodes, graph input and output
    /// nodes, queued events and pending removals: they may differ only in
    /// their edges and in whether they need compiling.
    pub open spec fn same_nodes(&self, other: &Self) -> bool {
        &&& self.nodes_view() == other.nodes_view()
        &&& self.graph_in_id_view() == other.graph_in_id_view()
        &&& self.graph_out_id_view() == other.graph_out_id_view()
        &&& self.queued_events() == other.queued_events()
        &&& self.removed_since_compile() == other.removed_since_compile()
        &&& self.pending_deactivations() == other.pending_deactivations()
    }

    /// `self` and `other` hold the same graph: the same nodes, edges and
    /// pending work, and both need compiling or neither does. (How the
    /// arenas have laid out their free slots is not part of it.)
    pub open spec fn same_graph(&self, other: &Self) -> bool {
        &&& self.same_nodes(other)
        &&& self.edges_view() == other.edges_view()
        &&& self.needs_compile_view() == other.needs_compile_view()
    }

    /// Removes a connection (edge) via the edge's unique ID; `false` if the
    /// edge did not exist.
    pub fn disconnect_by_edge_id(&mut self, edge_id: EdgeID) -> (r: bool)
        requires
            old(self).wf(),
        ensures
            final(self).wf(),
            final(self).same_nodes(old(self)),
            r == old(self).edges_view().contains_key(edge_id.0),
            final(self).edges_view() == old(self).edges_view().remove(edge_id.0),
            final(self).needs_compile_view() == (r || old(self).needs_compile_view()),
    {
        match edge_arena_remove(&mut self.edges, edge_id.0) {
            Some(edge) => {
                let _ = edge_index_remove(
                    &mut self.existing_edges,
                    (edge.src_node.0, edge.src_port, edge.dst_node.0, edge.dst_port),
                );
                self.needs_compile = true;
                proof {
                    let old_edges = old(self).edges_view();
                    let old_index = edge_index_contents(old(self).existing_edges);
                    assert(old_index[edge_hash(edge)] == edge_id.0);
                    assert forall|h: EdgeHash| #[trigger]
                        edge_index_contents(self.existing_edges).contains_key(h) implies self.edges_view().contains_key(
                            edge_index_contents(self.existing_edges)[h],
                        ) && edge_hash(self.edges_view()[edge_index_contents(self.existing_edges)[h]])
                            == h by {
                        assert(old_index.contains_key(h));
                        assert(old_edges.contains_key(old_index[h]));
                    }
                    assert forall|k: u64| #[trigger]
                        self.edges_view().contains_key(k) implies edge_index_contents(
                            self.existing_edges,
                        ).contains_key(edge_hash(self.edges_view()[k])) && edge_index_contents(
                            self.existing_edges,
                        )[edge_hash(self.edges_view()[k])] == k by {
                        assert(old_edges.contains_key(k));
                        assert(old_index[edge_hash(old_edges[k])] == k);
                    }
                }
                true
            },
            None => false,
        }
    }
}


/// The bits of each edge ID in a list.
pub open spec fn edge_id_bits(s: Seq<EdgeID>) -> Seq<u64> {
    s.map_values(|e: EdgeID| e.0)
}

/// Whether `e` uses the given port: an input port of `node` when
/// `is_input`, an output port otherwise.
pub open spec fn edge_uses_port(e: Edge, node: NodeID, port: PortIdx, is_input: bool) -> bool {
    if is_input {
        e.dst_node == node && e.dst_port == port
    } else {
        e.src_node == node && e.src_port == port
    }
}

/// The keys of the edges that use the given port.
pub open spec fn keys_using_port(edges: Map<u64, Edge>, node: NodeID, port: PortIdx, is_input: bool) -> Set<u64> {
    edges.dom().filter(|k: u64| edge_uses_port(edges[k], node, port, is_input))
}

impl<E> AudioGraph<E> {
    /// Removes every edge that uses the given port, and returns their IDs.
    fn remove_edges_with_port(&mut self, node_id: NodeID, port_idx: PortIdx, is_input: bool) -> (r: Vec<EdgeID>)
        requires
            old(self).wf(),
        ensures
            final(self).wf(),
            final(self).same_nodes(old(self)),
            edge_id_bits(r@).no_duplicates(),
            edge_id_bits(r@).to_set() == keys_using_port(old(self).edges_view(), node_id, port_idx, is_input),
            final(self).edges_view() == old(self).edges_view().remove_keys(
                keys_using_port(old(self).edges_view(), node_id, port_idx, is_input),
            ),
            final(self).needs_compile_view() == (r.len() > 0 || old(self).needs_compile_view()),
    {
        let ghost old_edges = self.edges_view();
        let ghost target = keys_using_port(old_edges, node_id, port_idx, is_input);
        let keys = edge_arena_keys(&self.edges);
        let mut edges_to_remove: Vec<EdgeID> = Vec::new();
        let mut i: usize = 0;
        while i < keys.len()
            invariant
                i <= keys.len(),
                keys@.no_duplicates(),
                keys@.to_set() == old_edges.dom(),
                target == keys_using_port(old_edges, node_id, port_idx, is_input),
                self.edges_view() == old_edges,
                self.wf(),
                edge_id_bits(edges_to_remove@).no_duplicates(),
                forall|t: int|
                    0 <= t < edges_to_remove@.len() ==> target.contains(
                        #[trigger] edge_id_bits(edges_to_remove@)[t],
                    ) && keys@.subrange(0, i as int).contains(edge_id_bits(edges_to_remove@)[t]),
                forall|j: int|
                    0 <= j < i && target.contains(#[trigger] keys@[j]) ==> edge_id_bits(
                        edges_to_remove@,
                    ).contains(keys@[j]),
            decreases keys.len() - i,
        {
            let k = keys[i];
            assert(keys@.contains(k));
            assert(old_edges.dom().contains(k));
            let e = edge_arena_get(&self.edges, k).unwrap();
            let ghost before = edge_id_bits(edges_to_remove@);
            proof {
                assert forall|t: int| 0 <= t < before.len() implies #[trigger] before[t] != k by {
                    let j = choose|j: int| 0 <= j < i && keys@.subrange(0, i as int)[j] == before[t];
                    assert(keys@[j] == before[t]);
                }
            }
            assert(e == old_edges[k]);
            assert(target.contains(k) == edge_uses_port(e, node_id, port_idx, is_input));
            if edge_uses_port_exec(&e, node_id, port_idx, is_input) {
                edges_to_remove.push(EdgeID(k));
                proof {
                    assert(edge_id_bits(edges_to_remove@) =~= before.push(k));
                    assert(edge_id_bits(edges_to_remove@)[before.len() as int] == k);
                }
            }
            proof {
                let after = edge_id_bits(edges_to_remove@);
                assert forall|t: int| 0 <= t < after.len() implies keys@.subrange(0, i + 1).contains(
                    #[trigger] after[t],
                ) by {
                    if t < before.len() {
                        assert(after[t] == before[t]);
                        let j = choose|j: int| 0 <= j < i && keys@.subrange(0, i as int)[j] == before[t];
                        assert(keys@.subrange(0, i + 1)[j] == before[t]);
                    } else {
                        assert(keys@.subrange(0, i + 1)[i as int] == k);
                    }
                }
                assert forall|j: int| 0 <= j < i + 1 && target.contains(#[trigger] keys@[j]) implies after.contains(
                    keys@[j],
                ) by {
                    if j < i {
                        let t = choose|t: int| 0 <= t < before.len() && before[t] == keys@[j];
                        assert(after[t] == keys@[j]);
                    } else {
                        assert(edge_uses_port(e, node_id, port_idx, is_input));
                        assert(after[before.len() as int] == k);
                    }
                }
            }
            i += 1;
        }
        proof {
            let rm = edge_id_bits(edges_to_remove@);
            assert forall|x: u64| rm.to_set().contains(x) <==> target.contains(x) by {
                if rm.to_set().contains(x) {
                    let t = choose|t: int| 0 <= t < rm.len() && rm[t] == x;
                    assert(target.contains(rm[t]));
                }
                if target.contains(x) {
                    assert(keys@.to_set().contains(x));
                    let j = choose|j: int| 0 <= j < keys@.len() && keys@[j] == x;
                    assert(target.contains(keys@[j]));
                }
            }
            assert(rm.to_set() =~= target);
        }
        let ghost removed = edge_id_bits(edges_to_remove@);
        let mut j: usize = 0;
        while j < edges_to_remove.len()
            invariant
                j <= edges_to_remove.len(),
                removed == edge_id_bits(edges_to_remove@),
                removed.no_duplicates(),
                removed.to_set() == target,
                target.subset_of(old_edges.dom()),
                self.wf(),
                self.same_nodes(old(self)),
                self.edges_view() == old_edges.remove_keys(removed.take(j as int).to_set()),
                self.needs_compile_view() == (j > 0 || old(self).needs_compile_view()),
            decreases edges_to_remove.len() - j,
        {
            let id = edges_to_remove[j];
            proof {
                assert(removed[j as int] == id.0);
                assert(removed.to_set().contains(id.0));
                assert(!removed.take(j as int).to_set().contains(id.0)) by {
                    if removed.take(j as int).to_set().contains(id.0) {
                        let t = choose|t: int| 0 <= t < j && removed.take(j as int)[t] == id.0;
                        assert(removed[t] == removed[j as int]);
                    }
                }
            }
            let ok = self.disconnect_by_edge_id(id);
            proof {
                assert(removed.take(j + 1) =~= removed.take(j as int).push(id.0));
                removed.take(j as int).lemma_push_to_set_commute(id.0);
                assert(self.edges_view() =~= old_edges.remove_keys(removed.take(j + 1).to_set()));
            }
            j += 1;
        }
        proof {
            assert(removed.take(edges_to_remove.len() as int) =~= removed);
        }
        edges_to_remove
    }
}

/// Whether `e` uses the given port (see [`edge_uses_port`]).
fn edge_uses_port_exec(e: &Edge, node: NodeID, port: PortIdx, is_input: bool) -> (r: bool)
    ensures
        r == edge_uses_port(*e, node, port, is_input),
{
    if is_input {
        e.dst_node.0 == node.0 && e.dst_port == port
    } else {
        e.src_node.0 == node.0 && e.src_port == port
    }
}


/// The keys of the edges into `n` through an input port below `ni`, or out
/// of `n` through an output port below `no`.
pub open spec fn keys_on_ports(edges: Map<u64, Edge>, n: NodeID, ni: int, no: int) -> Set<u64> {
    edges.dom().filter(
        |k: u64|
            (edges[k].dst_node == n && edges[k].dst_port < ni) || (edges[k].src_node == n
                && edges[k].src_port < no),
    )
}

/// The keys of the edges that start or end at `n`.
pub open spec fn keys_touching(edges: Map<u64, Edge>, n: NodeID) -> Set<u64> {
    edges.dom().filter(|k: u64| edges[k].dst_node == n || edges[k].src_node == n)
}

/// Removing the edges of one more port extends the set of removed keys.
proof fn lemma_remove_port_step(
    old_edges: Map<u64, Edge>,
    n: NodeID,
    ni: int,
    no: int,
    p: PortIdx,
    is_input: bool,
)
    requires
        is_input ==> ni == p,
        !is_input ==> no == p,
    ensures
        ({
            let cur = old_edges.remove_keys(keys_on_ports(old_edges, n, ni, no));
            let step = keys_using_port(cur, n, p, is_input);
            let ni2 = if is_input { ni + 1 } else { ni };
            let no2 = if is_input { no } else { no + 1 };
            &&& cur.remove_keys(step) == old_edges.remove_keys(keys_on_ports(old_edges, n, ni2, no2))
            &&& keys_on_ports(old_edges, n, ni2, no2) == keys_on_ports(old_edges, n, ni, no).union(step)
            &&& keys_on_ports(old_edges, n, ni, no).disjoint(step)
        }),
{
    let cur = old_edges.remove_keys(keys_on_ports(old_edges, n, ni, no));
    let step = keys_using_port(cur, n, p, is_input);
    let ni2 = if is_input { ni + 1 } else { ni };
    let no2 = if is_input { no } else { no + 1 };
    assert(keys_on_ports(old_edges, n, ni2, no2) =~= keys_on_ports(old_edges, n, ni, no).union(step));
    assert(cur.remove_keys(step) =~= old_edges.remove_keys(keys_on_ports(old_edges, n, ni2, no2)));
}

impl<E> AudioGraph<E> {
    fn remove_edges_with_input_port(&mut self, node_id: NodeID, port_idx: PortIdx) -> (r: Vec<EdgeID>)
        requires
            old(self).wf(),
        ensures
            final(self).wf(),
            final(self).same_nodes(old(self)),
            edge_id_bits(r@).no_duplicates(),
            edge_id_bits(r@).to_set() == keys_using_port(old(self).edges_view(), node_id, port_idx, true),
            final(self).edges_view() == old(self).edges_view().remove_keys(
                keys_using_port(old(self).edges_view(), node_id, port_idx, true),
            ),
            final(self).needs_compile_view() == (r.len() > 0 || old(self).needs_compile_view()),
    {
        self.remove_edges_with_port(node_id, port_idx, true)
    }

    fn remove_edges_with_output_port(&mut self, node_id: NodeID, port_idx: PortIdx) -> (r: Vec<EdgeID>)
        requires
            old(self).wf(),
        ensures
            final(self).wf(),
            final(self).same_nodes(old(self)),
            edge_id_bits(r@).no_duplicates(),
            edge_id_bits(r@).to_set() == keys_using_port(old(self).edges_view(), node_id, port_idx, false),
            final(self).edges_view() == old(self).edges_view().remove_keys(
                keys_using_port(old(self).edges_view(), node_id, port_idx, false),
            ),
            final(self).needs_compile_view() == (r.len() > 0 || old(self).needs_compile_view()),
    {
        self.remove_edges_with_port(node_id, port_idx, false)
    }

    /// Removes the edges on the first `num_inputs` input ports and the
    /// first `num_outputs` output ports of a node.
    fn remove_edges_on_ports(&mut self, node_id: NodeID, num_inputs: u32, num_outputs: u32) -> (r: Vec<EdgeID>)
        requires
            old(self).wf(),
        ensures
            final(self).wf(),
            final(self).same_nodes(old(self)),
            edge_id_bits(r@).no_duplicates(),
            edge_id_bits(r@).to_set() == keys_on_ports(old(self).edges_view(), node_id, num_inputs as int, num_outputs as int),
            final(self).edges_view() == old(self).edges_view().remove_keys(
                keys_on_ports(old(self).edges_view(), node_id, num_inputs as int, num_outputs as int),
            ),
            final(self).needs_compile_view() == (r.len() > 0 || old(self).needs_compile_view()),
    {
        let ghost old_edges = self.edges_view();
        let mut removed_edges: Vec<EdgeID> = Vec::new();
        assert(old_edges.remove_keys(keys_on_ports(old_edges, node_id, 0, 0)) =~= old_edges);
        assert(keys_on_ports(old_edges, node_id, 0, 0) =~= Set::<u64>::empty());
        let mut port_idx: u32 = 0;
        while port_idx < num_inputs
            invariant
                port_idx <= num_inputs,
                self.wf(),
                self.same_nodes(old(self)),
                self.edges_view() == old_edges.remove_keys(keys_on_ports(old_edges, node_id, port_idx as int, 0)),
                edge_id_bits(removed_edges@).no_duplicates(),
                edge_id_bits(removed_edges@).to_set() == keys_on_ports(old_edges, node_id, port_idx as int, 0),
                self.needs_compile_view() == (removed_edges.len() > 0 || old(self).needs_compile_view()),
            decreases num_inputs - port_idx,
        {
            let ghost prev = edge_id_bits(removed_edges@);
            let ghost cur = self.edges_view();
            let mut step = self.remove_edges_with_input_port(node_id, port_idx);
            let ghost step_bits = edge_id_bits(step@);
            proof {
                lemma_remove_port_step(old_edges, node_id, port_idx as int, 0, port_idx, true);
            }
            removed_edges.append(&mut step);
            proof {
                assert(edge_id_bits(removed_edges@) =~= prev + step_bits);
                lemma_concat_no_dup_disjoint(prev, step_bits);
            }
            port_idx += 1;
        }
        let mut port_idx: u32 = 0;
        while port_idx < num_outputs
            invariant
                port_idx <= num_outputs,
                self.wf(),
                self.same_nodes(old(self)),
                self.edges_view() == old_edges.remove_keys(keys_on_ports(old_edges, node_id, num_inputs as int, port_idx as int)),
                edge_id_bits(removed_edges@).no_duplicates(),
                edge_id_bits(removed_edges@).to_set() == keys_on_ports(old_edges, node_id, num_inputs as int, port_idx as int),
                self.needs_compile_view() == (removed_edges.len() > 0 || old(self).needs_compile_view()),
            decreases num_outputs - port_idx,
        {
            let ghost prev = edge_id_bits(removed_edges@);
            let mut step = self.remove_edges_with_output_port(node_id, port_idx);
            let ghost step_bits = edge_id_bits(step@);
            proof {
                lemma_remove_port_step(old_edges, node_id, num_inputs as int, port_idx as int, port_idx, false);
            }
            removed_edges.append(&mut step);
            proof {
                assert(edge_id_bits(removed_edges@) =~= prev + step_bits);
                lemma_concat_no_dup_disjoint(prev, step_bits);
            }
            port_idx += 1;
        }
        removed_edges
    }
}

/// Two duplicate-free sequences with disjoint elements concatenate to a
/// duplicate-free sequence whose elements are the union.
proof fn lemma_concat_no_dup_disjoint(a: Seq<u64>, b: Seq<u64>)
    requires
        a.no_duplicates(),
        b.no_duplicates(),
        a.to_set().disjoint(b.to_set()),
    ensures
        (a + b).no_duplicates(),
        (a + b).to_set() == a.to_set().union(b.to_set()),
{
    let c = a + b;
    assert forall|i: int, j: int| 0 <= i < c.len() && 0 <= j < c.len() && i != j implies c[i] != c[j] by {
        if i < a.len() && j >= a.len() {
            assert(a.to_set().contains(c[i]));
            assert(b.to_set().contains(b[j - a.len()]));
        } else if i >= a.len() && j < a.len() {
            assert(a.to_set().contains(c[j]));
            assert(b.to_set().contains(b[i - a.len()]));
        } else if i < a.len() {
            assert(c[i] == a[i] && c[j] == a[j]);
        } else {
            assert(c[i] == b[i - a.len()] && c[j] == b[j - a.len()]);
        }
    }
    assert forall|x: u64| c.to_set().contains(x) <==> a.to_set().union(b.to_set()).contains(x) by {
        if c.to_set().contains(x) {
            let i = choose|i: int| 0 <= i < c.len() && c[i] == x;
            if i < a.len() {
                assert(a[i] == x);
            } else {
                assert(b[i - a.len()] == x);
            }
        }
        if a.to_set().contains(x) {
            let i = choose|i: int| 0 <= i < a.len() && a[i] == x;
            assert(c[i] == x);
        }
        if b.to_set().contains(x) {
            let i = choose|i: int| 0 <= i < b.len() && b[i] == x;
            assert(c[i + a.len()] == x);
        }
    }
    assert(c.to_set() =~= a.to_set().union(b.to_set()));
}


impl<E> AudioGraph<E> {
    /// Removes a node from the graph together with every edge connected
    /// to it, and returns the IDs of those edges.
    ///
    /// Fails if no node has the given ID, or if it is the graph input or
    /// graph output node.
    pub fn remove_node(&mut self, node_id: NodeID) -> (r: Result<Vec<EdgeID>, ()>)
        requires
            old(self).wf(),
        ensures
            final(self).wf(),
            r is Err <==> (node_id == old(self).graph_in_id_view() || node_id
                == old(self).graph_out_id_view() || !old(self).nodes_view().contains_key(node_id.0)),
            r is Err ==> *final(self) == *old(self),
            r matches Ok(ids) ==> {
                &&& edge_id_bits(ids@).no_duplicates()
                &&& edge_id_bits(ids@).to_set() == keys_touching(old(self).edges_view(), node_id)
                &&& final(self).edges_view() == old(self).edges_view().remove_keys(
                    keys_touching(old(self).edges_view(), node_id),
                )
                &&& final(self).nodes_view() == old(self).nodes_view().remove(node_id.0)
                &&& final(self).graph_in_id_view() == old(self).graph_in_id_view()
                &&& final(self).graph_out_id_view() == old(self).graph_out_id_view()
                &&& final(self).queued_events() == old(self).queued_events()
                &&& final(self).removed_since_compile() == old(self).removed_since_compile().push(
                    node_id,
                )
                &&& final(self).pending_deactivations() == (if old(self).nodes_view()[node_id.0].activated {
                    old(self).pending_deactivations().insert(
                        node_id.0,
                        old(self).nodes_view()[node_id.0],
                    )
                } else {
                    old(self).pending_deactivations()
                })
                &&& final(self).needs_compile_view()
            },
    {
        if node_id.0 == self.graph_in_id.0 || node_id.0 == self.graph_out_id.0 {
            return Err(());
        }
        let node_entry = match node_arena_get(&self.nodes, node_id.0) {
            Some(e) => e,
            None => return Err(()),
        };
        let ghost old_edges = self.edges_view();
        let num_inputs = node_entry.channel_config.num_inputs.get();
        let num_outputs = node_entry.channel_config.num_outputs.get();
        let removed_edges = self.remove_edges_on_ports(node_id, num_inputs, num_outputs);
        proof {
            assert(keys_on_ports(old_edges, node_id, num_inputs as int, num_outputs as int) =~= keys_touching(
                old_edges,
                node_id,
            )) by {
                assert forall|k: u64| #[trigger] old_edges.contains_key(k) implies ((old_edges[k].dst_node
                    == node_id && old_edges[k].dst_port < num_inputs) || (old_edges[k].src_node == node_id
                    && old_edges[k].src_port < num_outputs)) == (old_edges[k].dst_node == node_id
                    || old_edges[k].src_node == node_id) by {
                    assert(old(self).edge_wf(k, old_edges[k]));
                }
            }
        }
        let ghost edges_before = self.edges_view();
        let _ = node_arena_remove(&mut self.nodes, node_id.0);
        self.nodes_to_remove_from_schedule.push(node_id);
        if node_entry.activated {
            node_map_insert(&mut self.active_nodes_to_remove, node_id.0, node_entry);
        }
        self.needs_compile = true;
        proof {
            assert forall|k: u64| #[trigger] self.edges_view().contains_key(k) implies self.edge_wf(
                k,
                self.edges_view()[k],
            ) by {
                assert(edges_before.contains_key(k));
                assert(old_edges.contains_key(k));
                assert(!keys_touching(old_edges, node_id).contains(k));
                assert(old(self).edge_wf(k, old_edges[k]));
            }
        }
        Ok(removed_edges)
    }
}


/// The keys of the edges that use a port of `n` with an index in
/// `lo..hi`: input ports when `is_input`, output ports otherwise.
pub open spec fn keys_on_port_range(edges: Map<u64, Edge>, n: NodeID, lo: int, hi: int, is_input: bool) -> Set<u64> {
    edges.dom().filter(
        |k: u64|
            if is_input {
                edges[k].dst_node == n && lo <= edges[k].dst_port < hi
            } else {
                edges[k].src_node == n && lo <= edges[k].src_port < hi
            },
    )
}

impl<E> AudioGraph<E> {
    /// Removes the edges on the ports of `node_id` with an index in
    /// `lo..hi` (input ports when `is_input`, output ports otherwise).
    fn remove_edges_on_port_range(&mut self, node_id: NodeID, lo: u32, hi: u32, is_input: bool) -> (r: Vec<EdgeID>)
        requires
            old(self).wf(),
        ensures
            final(self).wf(),
            final(self).same_nodes(old(self)),
            edge_id_bits(r@).no_duplicates(),
            edge_id_bits(r@).to_set() == keys_on_port_range(old(self).edges_view(), node_id, lo as int, hi as int, is_input),
            final(self).edges_view() == old(self).edges_view().remove_keys(
                keys_on_port_range(old(self).edges_view(), node_id, lo as int, hi as int, is_input),
            ),
            final(self).needs_compile_view() == (r.len() > 0 || old(self).needs_compile_view()),
    {
        let ghost old_edges = self.edges_view();
        let mut removed_edges: Vec<EdgeID> = Vec::new();
        let mut port_idx: u32 = lo;
        assert(keys_on_port_range(old_edges, node_id, lo as int, lo as int, is_input) =~= Set::<u64>::empty());
        assert(old_edges.remove_keys(Set::<u64>::empty()) =~= old_edges);
        while port_idx < hi
            invariant
                lo <= port_idx,
                lo <= hi ==> port_idx <= hi,
                hi < lo ==> port_idx == lo,
                self.wf(),
                self.same_nodes(old(self)),
                self.edges_view() == old_edges.remove_keys(keys_on_port_range(old_edges, node_id, lo as int, port_idx as int, is_input)),
                edge_id_bits(removed_edges@).no_duplicates(),
                edge_id_bits(removed_edges@).to_set() == keys_on_port_range(old_edges, node_id, lo as int, port_idx as int, is_input),
                self.needs_compile_view() == (removed_edges.len() > 0 || old(self).needs_compile_view()),
            decreases hi - port_idx,
        {
            let ghost prev = edge_id_bits(removed_edges@);
            let ghost cur = self.edges_view();
            let mut step = self.remove_edges_with_port(node_id, port_idx, is_input);
            let ghost step_bits = edge_id_bits(step@);
            proof {
                let before = keys_on_port_range(old_edges, node_id, lo as int, port_idx as int, is_input);
                let after = keys_on_port_range(old_edges, node_id, lo as int, port_idx + 1, is_input);
                let st = keys_using_port(cur, node_id, port_idx, is_input);
                assert(after =~= before.union(st));
                assert(before.disjoint(st));
                assert(cur.remove_keys(st) =~= old_edges.remove_keys(after));
            }
            removed_edges.append(&mut step);
            proof {
                assert(edge_id_bits(removed_edges@) =~= prev + step_bits);
                lemma_concat_no_dup_disjoint(prev, step_bits);
            }
            port_idx += 1;
        }
        proof {
            if hi < lo {
                assert(keys_on_port_range(old_edges, node_id, lo as int, hi as int, is_input) =~= Set::<u64>::empty());
                assert(keys_on_port_range(old_edges, node_id, lo as int, port_idx as int, is_input) =~= Set::<u64>::empty());
            } else {
                assert(port_idx == hi);
            }
        }
        removed_edges
    }

    /// The entry of `n` with its input (`is_input`) or output port count
    /// replaced by `count`.
    pub open spec fn with_port_count(e: NodeEntry, count: ChannelCount, is_input: bool) -> NodeEntry {
        if is_input {
            NodeEntry { channel_config: ChannelConfig { num_inputs: count, ..e.channel_config }, ..e }
        } else {
            NodeEntry { channel_config: ChannelConfig { num_outputs: count, ..e.channel_config }, ..e }
        }
    }

    /// Changes the number of input (`is_input`) or output ports of a node,
    /// removing the edges on ports that no longer exist.
    fn set_port_count(&mut self, node_id: NodeID, count: ChannelCount, is_input: bool) -> (r: Vec<EdgeID>)
        requires
            old(self).wf(),
            old(self).nodes_view().contains_key(node_id.0),
            node_id == old(self).graph_in_id_view() ==> !is_input,
            node_id == old(self).graph_out_id_view() ==> is_input,
        ensures
            final(self).wf(),
            ({
                let gone = keys_on_port_range(old(self).edges_view(), node_id, count.count() as int, 65, is_input);
                let e = old(self).nodes_view()[node_id.0];
                let prev = if is_input { e.channel_config.num_inputs } else { e.channel_config.num_outputs };
                &&& edge_id_bits(r@).no_duplicates()
                &&& edge_id_bits(r@).to_set() == gone
                &&& final(self).edges_view() == old(self).edges_view().remove_keys(gone)
                &&& final(self).nodes_view() == old(self).nodes_view().insert(node_id.0, Self::with_port_count(e, count, is_input))
                &&& final(self).graph_in_id_view() == old(self).graph_in_id_view()
                &&& final(self).graph_out_id_view() == old(self).graph_out_id_view()
                &&& final(self).queued_events() == old(self).queued_events()
                &&& final(self).removed_since_compile() == old(self).removed_since_compile()
                &&& final(self).pending_deactivations() == old(self).pending_deactivations()
                &&& final(self).needs_compile_view() == (old(self).needs_compile_view() || prev != count)
            }),
    {
        let ghost old_edges = self.edges_view();
        let entry = node_arena_get(&self.nodes, node_id.0).unwrap();
        let new_n = count.get();
        let old_n = if is_input {
            entry.channel_config.num_inputs.get()
        } else {
            entry.channel_config.num_outputs.get()
        };
        let ghost gone = keys_on_port_range(old_edges, node_id, new_n as int, 65, is_input);
        proof {
            ChannelCount::lemma_eq_iff_count_eq(count, if is_input { entry.channel_config.num_inputs } else { entry.channel_config.num_outputs });
        }
        let mut removed_edges: Vec<EdgeID> = Vec::new();
        if new_n != old_n {
            if new_n < old_n {
                removed_edges = self.remove_edges_on_port_range(node_id, new_n, old_n, is_input);
            }
            self.needs_compile = true;
        }
        proof {
            assert(keys_on_port_range(old_edges, node_id, new_n as int, old_n as int, is_input) =~= gone) by {
                assert forall|k: u64| #[trigger] old_edges.contains_key(k) implies (if is_input {
                    old_edges[k].dst_node == node_id ==> old_edges[k].dst_port < old_n
                } else {
                    old_edges[k].src_node == node_id ==> old_edges[k].src_port < old_n
                }) by {
                    assert(old(self).edge_wf(k, old_edges[k]));
                }
            }
            if !(new_n < old_n) {
                assert(gone =~= Set::<u64>::empty());
                assert(old_edges.remove_keys(gone) =~= old_edges);
            }
        }
        let new_entry = if is_input {
            NodeEntry { channel_config: ChannelConfig { num_inputs: count, ..entry.channel_config }, ..entry }
        } else {
            NodeEntry { channel_config: ChannelConfig { num_outputs: count, ..entry.channel_config }, ..entry }
        };
        node_arena_set(&mut self.nodes, node_id.0, new_entry);
        proof {
            assert forall|k: u64| #[trigger] self.edges_view().contains_key(k) implies self.edge_wf(
                k,
                self.edges_view()[k],
            ) by {
                assert(old_edges.contains_key(k));
                assert(!gone.contains(k));
                assert(old(self).edge_wf(k, old_edges[k]));
            }
            assert forall|k: u64| #[trigger] self.nodes_view().contains_key(k) implies self.nodes_view()[k].id.0 == k by {
                assert(old(self).nodes_view().contains_key(k));
            }
        }
        removed_edges
    }

    /// Sets the number of input and output channels of the audio graph:
    /// the graph input node gets `channel_config.num_inputs` outputs and
    /// the graph output node gets `channel_config.num_outputs` inputs.
    /// The edges on ports that no longer exist are removed, and their IDs
    /// returned.
    pub fn set_graph_channel_config(&mut self, channel_config: ChannelConfig) -> (r: Vec<EdgeID>)
        requires
            old(self).wf(),
        ensures
            final(self).wf(),
            ({
                let gin = old(self).graph_in_id_view();
                let gout = old(self).graph_out_id_view();
                let gone = keys_on_port_range(old(self).edges_view(), gin, channel_config.num_inputs.count() as int, 65, false).union(
                    keys_on_port_range(old(self).edges_view(), gout, channel_config.num_outputs.count() as int, 65, true));
                let in_entry = old(self).nodes_view()[gin.0];
                let out_entry = old(self).nodes_view()[gout.0];
                &&& edge_id_bits(r@).no_duplicates()
                &&& edge_id_bits(r@).to_set() == gone
                &&& final(self).edges_view() == old(self).edges_view().remove_keys(gone)
                &&& final(self).nodes_view() == old(self).nodes_view().insert(
                    gin.0,
                    Self::with_port_count(in_entry, channel_config.num_inputs, false),
                ).insert(gout.0, Self::with_port_count(out_entry, channel_config.num_outputs, true))
                &&& final(self).graph_in_id_view() == gin
                &&& final(self).graph_out_id_view() == gout
                &&& final(self).queued_events() == old(self).queued_events()
                &&& final(self).removed_since_compile() == old(self).removed_since_compile()
                &&& final(self).pending_deactivations() == old(self).pending_deactivations()
                &&& final(self).needs_compile_view() == (old(self).needs_compile_view()
                    || in_entry.channel_config.num_outputs != channel_config.num_inputs
                    || out_entry.channel_config.num_inputs != channel_config.num_outputs)
            }),
    {
        let ghost old_edges = self.edges_view();
        let gin = self.graph_in_id;
        let gout = self.graph_out_id;
        let ghost a_set = keys_on_port_range(old_edges, gin, channel_config.num_inputs.count() as int, 65, false);
        let ghost b_set = keys_on_port_range(old_edges, gout, channel_config.num_outputs.count() as int, 65, true);
        let mut removed_edges = self.set_port_count(gin, channel_config.num_inputs, false);
        let ghost mid_edges = self.edges_view();
        let ghost mid_ids = edge_id_bits(removed_edges@);
        let mut more = self.set_port_count(gout, channel_config.num_outputs, true);
        let ghost more_bits = edge_id_bits(more@);
        proof {
            assert(keys_on_port_range(mid_edges, gout, channel_config.num_outputs.count() as int, 65, true) =~= b_set.difference(a_set));
        }
        removed_edges.append(&mut more);
        proof {
            assert(edge_id_bits(removed_edges@) =~= mid_ids + more_bits);
            lemma_concat_no_dup_disjoint(mid_ids, more_bits);
            assert(a_set.union(b_set.difference(a_set)) =~= a_set.union(b_set));
            assert(mid_edges.remove_keys(b_set.difference(a_set)) =~= old_edges.remove_keys(a_set.union(b_set)));
        }
        removed_edges
    }
}


/// The position of `v` in `keys`.
fn position_of(keys: &Vec<u64>, v: u64) -> (r: usize)
    requires
        keys@.contains(v),
    ensures
        r < keys.len(),
        keys@[r as int] == v,
{
    let mut i: usize = 0;
    while i < keys.len()
        invariant
            i <= keys.len(),
            keys@.contains(v),
            forall|j: int| 0 <= j < i ==> keys@[j] != v,
        decreases keys.len() - i,
    {
        if keys[i] == v {
            return i;
        }
        i += 1;
    }
    proof {
        let j = choose|j: int| 0 <= j < keys@.len() && keys@[j] == v;
    }
    0
}

/// Whether every dense edge into node `i` comes from a node already
/// taken out.
fn all_preds_removed(src: &Vec<usize>, dst: &Vec<usize>, removed: &Vec<bool>, i: usize) -> (r: bool)
    requires
        src.len() == dst.len(),
        forall|t: int| 0 <= t < src.len() ==> src@[t] < removed.len(),
    ensures
        r == (forall|t: int|
            0 <= t < src.len() && dst@[t] == i ==> removed@[#[trigger] src@[t] as int]),
{
    let mut t: usize = 0;
    while t < src.len()
        invariant
            t <= src.len(),
            src.len() == dst.len(),
            forall|u: int| 0 <= u < src.len() ==> src@[u] < removed.len(),
            forall|u: int| 0 <= u < t && dst@[u] == i ==> removed@[#[trigger] src@[u] as int],
        decreases src.len() - t,
    {
        if dst[t] == i && !removed[src[t]] {
            return false;
        }
        t += 1;
    }
    true
}

impl<E> AudioGraph<E> {
    /// Lists the edges as pairs of node positions in `keys`.
    fn dense_edges(&self, keys: &Vec<u64>) -> (r: (Vec<u64>, Vec<usize>, Vec<usize>))
        requires
            self.wf(),
            keys@.to_set() == self.nodes_view().dom(),
        ensures
            dense_edges_describe(keys@, r.0@, r.1@, r.2@, self.edges_view()),
            r.0@.no_duplicates(),
    {
        let ekeys = edge_arena_keys(&self.edges);
        let mut src: Vec<usize> = Vec::new();
        let mut dst: Vec<usize> = Vec::new();
        let mut t: usize = 0;
        while t < ekeys.len()
            invariant
                t <= ekeys.len(),
                self.wf(),
                keys@.to_set() == self.nodes_view().dom(),
                ekeys@.to_set() == self.edges_view().dom(),
                src.len() == t,
                dst.len() == t,
                forall|u: int|
                    #![trigger src@[u]]
                    #![trigger dst@[u]]
                    0 <= u < t ==> src@[u] < keys.len() && dst@[u] < keys.len() && keys@[src@[u] as int]
                        == self.edges_view()[ekeys@[u]].src_node.0 && keys@[dst@[u] as int]
                        == self.edges_view()[ekeys@[u]].dst_node.0,
            decreases ekeys.len() - t,
        {
            let k = ekeys[t];
            assert(ekeys@.contains(k));
            assert(self.edges_view().contains_key(k));
            let e = edge_arena_get(&self.edges, k).unwrap();
            proof {
                assert(self.edge_wf(k, e));
                assert(keys@.to_set().contains(e.src_node.0));
                assert(keys@.to_set().contains(e.dst_node.0));
            }
            let si = position_of(keys, e.src_node.0);
            let di = position_of(keys, e.dst_node.0);
            src.push(si);
            dst.push(di);
            t += 1;
        }
        (ekeys, src, dst)
    }

    /// Checks whether the graph holds a cycle. The graph is left as it is.
    pub fn cycle_detected(&mut self) -> (r: bool)
        requires
            old(self).wf(),
        ensures
            *final(self) == *old(self),
            r == !is_acyclic(old(self).nodes_view().dom(), old(self).edges_view()),
    {
        let keys = node_arena_keys(&self.nodes);
        let (ekeys, src, dst) = self.dense_edges(&keys);
        let ghost nodes = self.nodes_view().dom();
        let ghost edges = self.edges_view();
        let n = keys.len();
        let mut removed: Vec<bool> = Vec::new();
        while removed.len() < n
            invariant
                removed.len() <= n,
                forall|i: int| 0 <= i < removed.len() ==> !removed@[i],
            decreases n - removed.len(),
        {
            removed.push(false);
        }
        let ghost mut order: Seq<u64> = Seq::empty();
        let mut count: usize = 0;
        while count < n
            invariant
                n == keys.len(),
                nodes == old(self).nodes_view().dom(),
                edges == old(self).edges_view(),
                keys@.no_duplicates(),
                keys@.to_set() == nodes,
                dense_edges_describe(keys@, ekeys@, src@, dst@, edges),
                removed.len() == n,
                count <= n,
                order.len() == count,
                order.no_duplicates(),
                forall|i: int| 0 <= i < n ==> (removed@[i] <==> order.contains(#[trigger] keys@[i])),
                forall|a: int| 0 <= a < order.len() ==> keys@.contains(#[trigger] order[a]),
                preds_listed_before(order, keys@, src@, dst@),
            decreases n - count,
        {
            let mut found: Option<usize> = None;
            let mut i: usize = 0;
            while i < n
                invariant
                    n == keys.len(),
                    removed.len() == n,
                    src.len() == dst.len(),
                    forall|t: int| 0 <= t < src.len() ==> src@[t] < n,
                    i <= n,
                    found matches Some(f) ==> f < n && !removed@[f as int] && (forall|t: int|
                        0 <= t < src.len() && dst@[t] == f ==> removed@[#[trigger] src@[t] as int]),
                    found is None ==> forall|j: int| 0 <= j < i && !removed@[j] ==> exists|t: int|
                        0 <= t < src.len() && dst@[t] == j && !removed@[#[trigger] src@[t] as int],
                ensures
                    found is None ==> i == n,
                    found matches Some(f) ==> f < n && !removed@[f as int] && (forall|t: int|
                        0 <= t < src.len() && dst@[t] == f ==> removed@[#[trigger] src@[t] as int]),
                    found is None ==> forall|j: int| 0 <= j < n && !removed@[j] ==> exists|t: int|
                        0 <= t < src.len() && dst@[t] == j && !removed@[#[trigger] src@[t] as int],
                decreases n - i,
            {
                if !removed[i] && all_preds_removed(&src, &dst, &removed, i) {
                    found = Some(i);
                    break;
                }
                i += 1;
            }
            match found {
                None => {
                    proof {
                        keys@.unique_seq_to_set();
                        order.unique_seq_to_set();
                        vstd::seq_lib::seq_to_set_is_finite(order);
                        if forall|j: int| 0 <= j < n ==> order.contains(#[trigger] keys@[j]) {
                            assert(keys@.to_set().subset_of(order.to_set())) by {
                                assert forall|x: u64| keys@.to_set().contains(x) implies order.to_set().contains(x) by {
                                    let j = choose|j: int| 0 <= j < n && keys@[j] == x;
                                    assert(order.contains(keys@[j]));
                                }
                            }
                            vstd::set_lib::lemma_len_subset(keys@.to_set(), order.to_set());
                        }
                        let j0 = choose|j: int| 0 <= j < n && !order.contains(#[trigger] keys@[j]);
                        let rest = nodes.filter(|x: u64| !order.contains(x));
                        assert(rest.contains(keys@[j0]));
                        assert forall|i: int|
                            0 <= i < keys@.len() && rest.contains(#[trigger] keys@[i]) implies exists|t: int|
                                0 <= t < src@.len() && dst@[t] == i && rest.contains(
                                    #[trigger] keys@[src@[t] as int],
                                ) by {
                            assert(!removed@[i]);
                            let t = choose|t: int|
                                0 <= t < src.len() && dst@[t] == i && !removed@[#[trigger] src@[t] as int];
                            assert(0 <= t < ekeys@.len());
                            assert(src@[t] < keys@.len());
                            let si = src@[t] as int;
                            assert(!removed@[si]);
                            assert(!order.contains(keys@[si]));
                            assert(keys@.to_set().contains(keys@[src@[t] as int]));
                        }
                        lemma_stuck_implies_cycle(keys@, ekeys@, src@, dst@, nodes, edges, rest);
                    }
                    return true;
                },
                Some(f) => {
                    let ghost prev = order;
                    let ghost x = keys@[f as int];
                    removed.set(f, true);
                    proof {
                        assert(!prev.contains(x));
                        order = order.push(x);
                        assert forall|i: int| 0 <= i < n implies (removed@[i] <==> order.contains(
                            #[trigger] keys@[i],
                        )) by {
                            if i != f {
                                assert(keys@[i] != x);
                                if prev.contains(keys@[i]) {
                                    let p = choose|p: int| 0 <= p < prev.len() && prev[p] == keys@[i];
                                    assert(order[p] == keys@[i]);
                                }
                                if order.contains(keys@[i]) {
                                    let p = choose|p: int| 0 <= p < order.len() && order[p] == keys@[i];
                                    assert(prev[p] == keys@[i]);
                                }
                            } else {
                                assert(order[prev.len() as int] == x);
                            }
                        }
                        assert forall|a: int| 0 <= a < order.len() implies keys@.contains(#[trigger] order[a]) by {
                            if a < prev.len() {
                                assert(order[a] == prev[a]);
                            }
                        }
                        assert forall|t: int, a: int|
                            0 <= t < src@.len() && 0 <= a < order.len() && keys@[dst@[t] as int] == #[trigger] order[a]
                                implies order.subrange(0, a).contains(keys@[#[trigger] src@[t] as int]) by {
                            if a < prev.len() {
                                assert(order[a] == prev[a]);
                                assert(order.subrange(0, a) =~= prev.subrange(0, a));
                            } else {
                                assert(dst@[t] == f);
                                assert(removed@[src@[t] as int]);
                                assert(order.subrange(0, a) =~= prev);
                            }
                        }
                    }
                    count += 1;
                },
            }
        }
        proof {
            keys@.unique_seq_to_set();
            order.unique_seq_to_set();
            vstd::seq_lib::seq_to_set_is_finite(order);
            assert(order.to_set().subset_of(keys@.to_set())) by {
                assert forall|x: u64| order.to_set().contains(x) implies keys@.to_set().contains(x) by {
                    let a = choose|a: int| 0 <= a < order.len() && order[a] == x;
                    assert(keys@.contains(order[a]));
                }
            }
            vstd::set_lib::lemma_subset_equality(order.to_set(), keys@.to_set());
            lemma_complete_order_is_topological(order, keys@, ekeys@, src@, dst@, nodes, edges);
        }
        false
    }
}


/// The keys of the edges from `src` to `dst` whose (output port, input
/// port) pair is listed in `ps`.
pub open spec fn keys_with_port_pairs(edges: Map<u64, Edge>, src: NodeID, dst: NodeID, ps: Seq<(PortIdx, PortIdx)>) -> Set<u64> {
    edges.dom().filter(
        |k: u64|
            edges[k].src_node == src && edges[k].dst_node == dst && ps.contains(
                (edges[k].src_port, edges[k].dst_port),
            ),
    )
}

impl<E> AudioGraph<E> {
    /// The edge index lists an edge with these endpoints exactly when the
    /// graph has one.
    proof fn lemma_index_matches_edges(&self, h: EdgeHash)
        requires
            self.wf(),
        ensures
            edge_index_contents(self.existing_edges).contains_key(h) == has_edge_hash(self.edges_view(), h),
            edge_index_contents(self.existing_edges).contains_key(h) ==> self.edges_view().contains_key(
                edge_index_contents(self.existing_edges)[h],
            ) && edge_hash(self.edges_view()[edge_index_contents(self.existing_edges)[h]]) == h,
    {
        if has_edge_hash(self.edges_view(), h) {
            let k = choose|k: u64| #![trigger self.edges_view()[k]] self.edges_view().contains_key(k) && edge_hash(self.edges_view()[k]) == h;
            assert(self.edges_view().contains_key(k));
        }
        if edge_index_contents(self.existing_edges).contains_key(h) {
            let k = edge_index_contents(self.existing_edges)[h];
            assert(self.edges_view().contains_key(k));
            assert(self.edges_view()[k] == self.edges_view()[k]);
        }
    }

    /// Removes the connections (edges) from `src_node` to `dst_node` on the
    /// given (output port, input port) pairs. Returns `false` if none of
    /// them existed.
    pub fn disconnect(&mut self, src_node: NodeID, dst_node: NodeID, ports_src_dst: &[(PortIdx, PortIdx)]) -> (r: bool)
        requires
            old(self).wf(),
        ensures
            final(self).wf(),
            final(self).same_nodes(old(self)),
            final(self).edges_view() == old(self).edges_view().remove_keys(
                keys_with_port_pairs(old(self).edges_view(), src_node, dst_node, ports_src_dst@),
            ),
            r == !keys_with_port_pairs(old(self).edges_view(), src_node, dst_node, ports_src_dst@).is_empty(),
            final(self).needs_compile_view() == (r || old(self).needs_compile_view()),
    {
        let ghost old_edges = self.edges_view();
        let ghost ps = ports_src_dst@;
        let mut any_removed = false;
        let mut i: usize = 0;
        assert(keys_with_port_pairs(old_edges, src_node, dst_node, ps.take(0)) =~= Set::<u64>::empty());
        assert(old_edges.remove_keys(Set::<u64>::empty()) =~= old_edges);
        while i < ports_src_dst.len()
            invariant
                i <= ps.len(),
                ps == ports_src_dst@,
                self.wf(),
                self.same_nodes(old(self)),
                self.edges_view() == old_edges.remove_keys(keys_with_port_pairs(old_edges, src_node, dst_node, ps.take(i as int))),
                any_removed == !keys_with_port_pairs(old_edges, src_node, dst_node, ps.take(i as int)).is_empty(),
                self.needs_compile_view() == (any_removed || old(self).needs_compile_view()),
            decreases ps.len() - i,
        {
            let (src_port, dst_port) = ports_src_dst[i];
            let h: EdgeHash = (src_node.0, src_port, dst_node.0, dst_port);
            let ghost before = keys_with_port_pairs(old_edges, src_node, dst_node, ps.take(i as int));
            let ghost after = keys_with_port_pairs(old_edges, src_node, dst_node, ps.take(i + 1));
            let ghost cur = self.edges_view();
            proof {
                self.lemma_index_matches_edges(h);
                assert(ps.take(i + 1) =~= ps.take(i as int).push((src_port, dst_port)));
                assert forall|k: u64| after.contains(k) <==> (before.contains(k) || (old_edges.contains_key(k)
                    && edge_hash(old_edges[k]) == h)) by {
                    if old_edges.contains_key(k) {
                        let pr = (old_edges[k].src_port, old_edges[k].dst_port);
                        let t1 = ps.take(i + 1);
                        let t0 = ps.take(i as int);
                        assert(t1.contains(pr) <==> (t0.contains(pr) || pr == (src_port, dst_port))) by {
                            if t1.contains(pr) {
                                let j = choose|j: int| 0 <= j < t1.len() && t1[j] == pr;
                                if j < i {
                                    assert(t0[j] == pr);
                                }
                            }
                            if t0.contains(pr) {
                                let j = choose|j: int| 0 <= j < t0.len() && t0[j] == pr;
                                assert(t1[j] == pr);
                            }
                            if pr == (src_port, dst_port) {
                                assert(t1[i as int] == pr);
                            }
                        }
                    }
                }
            }
            match edge_index_get(&self.existing_edges, h) {
                Some(k) => {
                    proof {
                        assert(cur.contains_key(k) && edge_hash(cur[k]) == h);
                        assert(old_edges.contains_key(k));
                        assert(!before.contains(k));
                        assert(after =~= before.insert(k)) by {
                            assert forall|k2: u64| old_edges.contains_key(k2) && edge_hash(old_edges[k2]) == h && !before.contains(k2) implies k2 == k by {
                                assert(cur.contains_key(k2));
                                assert(edge_index_contents(self.existing_edges)[edge_hash(cur[k2])] == k2);
                            }
                        }
                    }
                    self.disconnect_by_edge_id(EdgeID(k));
                    any_removed = true;
                    proof {
                        assert(self.edges_view() =~= old_edges.remove_keys(after));
                    }
                },
                None => {
                    proof {
                        assert(after =~= before) by {
                            assert forall|k2: u64| old_edges.contains_key(k2) && edge_hash(old_edges[k2]) == h implies before.contains(k2) by {
                                if !before.contains(k2) {
                                    assert(cur.contains_key(k2));
                                    assert(has_edge_hash(cur, h));
                                }
                            }
                        }
                    }
                },
            }
            i += 1;
        }
        proof {
            assert(ps.take(ps.len() as int) =~= ps);
        }
        any_removed
    }
}


/// `new` is `old` with one edge from `src` to `dst` added for each pair
/// `added[j]`, stored under the fresh key `ids[j]`.
pub open spec fn extends_with(
    new: Map<u64, Edge>,
    old: Map<u64, Edge>,
    ids: Seq<u64>,
    src: NodeID,
    dst: NodeID,
    added: Seq<(PortIdx, PortIdx)>,
) -> bool {
    &&& ids.len() == added.len()
    &&& ids.no_duplicates()
    &&& forall|j: int|
        #![trigger ids[j]]
        0 <= j < ids.len() ==> !old.contains_key(ids[j]) && new.contains_key(ids[j]) && new[ids[j]]
            == edge_of(ids[j], src, dst, added[j])
    &&& forall|k: u64| #[trigger] new.contains_key(k) <==> (old.contains_key(k) || ids.contains(k))
    &&& forall|k: u64| #[trigger] old.contains_key(k) ==> new[k] == old[k]
}

/// The nodes can be put in an order in which no edge of `edges`, and, when
/// `adds`, no edge from `s` to `d`, runs backwards or to its own node.
pub open spec fn is_acyclic_with_edge(nodes: Set<u64>, edges: Map<u64, Edge>, s: u64, d: u64, adds: bool) -> bool {
    exists|order: Seq<u64>|
        {
            &&& order.no_duplicates()
            &&& order.to_set() == nodes
            &&& forall|i: int, j: int|
                #![trigger order[i], order[j]]
                0 <= i <= j < order.len() ==> !has_edge_between(edges, order[j], order[i]) && !(adds
                    && order[j] == s && order[i] == d)
        }
}

/// Every element of `dedup(s)` is an element of `s`.
proof fn lemma_dedup_subset<A>(s: Seq<A>)
    ensures
        forall|x: A| dedup(s).contains(x) ==> s.contains(x),
    decreases s.len(),
{
    if s.len() > 0 {
        lemma_dedup_subset(s.drop_last());
        assert forall|x: A| dedup(s).contains(x) implies s.contains(x) by {
            if dedup(s.drop_last()).contains(x) {
                assert(s.drop_last().contains(x));
                let j = choose|j: int| 0 <= j < s.drop_last().len() && s.drop_last()[j] == x;
                assert(s[j] == x);
            } else {
                let r = dedup(s.drop_last());
                assert(dedup(s) == r.push(s.last()));
                let j = choose|j: int| 0 <= j < dedup(s).len() && dedup(s)[j] == x;
                if j < r.len() {
                    assert(r[j] == x);
                }
                assert(x == s.last());
                assert(s[s.len() - 1] == x);
            }
        }
    }
}

/// Adding edges from `src` to `dst` to a graph makes it acyclic exactly
/// when the graph with a single such edge is.
proof fn lemma_extends_acyclic(
    nodes: Set<u64>,
    new: Map<u64, Edge>,
    old: Map<u64, Edge>,
    ids: Seq<u64>,
    src: NodeID,
    dst: NodeID,
    added: Seq<(PortIdx, PortIdx)>,
)
    requires
        extends_with(new, old, ids, src, dst, added),
    ensures
        is_acyclic(nodes, new) == is_acyclic_with_edge(nodes, old, src.0, dst.0, added.len() > 0),
{
    assert forall|a: u64, b: u64| #[trigger] has_edge_between(new, a, b) <==> (has_edge_between(old, a, b) || (
    added.len() > 0 && a == src.0 && b == dst.0)) by {
        if has_edge_between(new, a, b) {
            let k = choose|k: u64| #![trigger new[k]] new.contains_key(k) && new[k].src_node.0 == a && new[k].dst_node.0 == b;
            if old.contains_key(k) {
                assert(old[k] == new[k]);
            } else {
                assert(ids.contains(k));
                let j = choose|j: int| 0 <= j < ids.len() && ids[j] == k;
                assert(new[ids[j]] == edge_of(ids[j], src, dst, added[j]));
            }
        }
        if has_edge_between(old, a, b) {
            let k = choose|k: u64| #![trigger old[k]] old.contains_key(k) && old[k].src_node.0 == a && old[k].dst_node.0 == b;
            assert(new.contains_key(k));
            assert(new[k] == old[k]);
        }
        if added.len() > 0 && a == src.0 && b == dst.0 {
            assert(new.contains_key(ids[0]));
            assert(new[ids[0]] == edge_of(ids[0], src, dst, added[0]));
        }
    }
    if is_acyclic(nodes, new) {
        let o = choose|o: Seq<u64>| is_topological_order(o, nodes, new);
        assert forall|i: int, j: int| 0 <= i <= j < o.len() implies !has_edge_between(old, #[trigger] o[j], #[trigger] o[i])
            && !(added.len() > 0 && o[j] == src.0 && o[i] == dst.0) by {
            assert(!has_edge_between(new, o[j], o[i]));
        }
    }
    if is_acyclic_with_edge(nodes, old, src.0, dst.0, added.len() > 0) {
        let o = choose|o: Seq<u64>|
            {
                &&& o.no_duplicates()
                &&& o.to_set() == nodes
                &&& forall|i: int, j: int|
                    #![trigger o[i], o[j]]
                    0 <= i <= j < o.len() ==> !has_edge_between(old, o[j], o[i]) && !(added.len() > 0
                        && o[j] == src.0 && o[i] == dst.0)
            };
        assert forall|i: int, j: int| 0 <= i <= j < o.len() implies !has_edge_between(new, #[trigger] o[j], #[trigger] o[i]) by {
            assert(!has_edge_between(old, o[j], o[i]));
        }
        assert(is_topological_order(o, nodes, new));
    }
}

impl<E> AudioGraph<E> {
    /// What is wrong, if anything, with connecting output port `p.0` of
    /// `src` to input port `p.1` of `dst`.
    pub open spec fn pair_error(&self, src: NodeID, dst: NodeID, p: (PortIdx, PortIdx)) -> Option<AddEdgeError> {
        let so = self.nodes_view()[src.0].channel_config.num_outputs;
        let di = self.nodes_view()[dst.0].channel_config.num_inputs;
        if p.0 >= so.count() {
            Some(AddEdgeError::OutPortOutOfRange { node: src, port_idx: p.0, num_out_ports: so })
        } else if p.1 >= di.count() {
            Some(AddEdgeError::InPortOutOfRange { node: dst, port_idx: p.1, num_in_ports: di })
        } else if has_edge_hash(self.edges_view(), (src.0, p.0, dst.0, p.1)) {
            Some(AddEdgeError::EdgeAlreadyExists)
        } else {
            None
        }
    }

    /// The error of the first pair in `ps` that has one.
    pub open spec fn first_pair_error(&self, src: NodeID, dst: NodeID, ps: Seq<(PortIdx, PortIdx)>) -> Option<AddEdgeError>
        decreases ps.len(),
    {
        if ps.len() == 0 {
            None
        } else {
            match self.first_pair_error(src, dst, ps.drop_last()) {
                Some(e) => Some(e),
                None => self.pair_error(src, dst, ps.last()),
            }
        }
    }

    /// The error `connect` answers before it changes anything, if any.
    pub open spec fn connect_error(&self, src: NodeID, dst: NodeID, ps: Seq<(PortIdx, PortIdx)>) -> Option<AddEdgeError> {
        if !self.nodes_view().contains_key(src.0) {
            Some(AddEdgeError::SrcNodeNotFound(src))
        } else if !self.nodes_view().contains_key(dst.0) {
            Some(AddEdgeError::DstNodeNotFound(dst))
        } else if src.0 == dst.0 {
            Some(AddEdgeError::CycleDetected)
        } else {
            self.first_pair_error(src, dst, ps)
        }
    }

    proof fn lemma_first_error_prefix(&self, src: NodeID, dst: NodeID, ps: Seq<(PortIdx, PortIdx)>, i: int)
        requires
            0 <= i <= ps.len(),
            self.first_pair_error(src, dst, ps.take(i)) is Some,
        ensures
            self.first_pair_error(src, dst, ps) == self.first_pair_error(src, dst, ps.take(i)),
        decreases ps.len(),
    {
        if i == ps.len() {
            assert(ps.take(i) =~= ps);
        } else {
            assert(ps.drop_last().take(i) =~= ps.take(i));
            self.lemma_first_error_prefix(src, dst, ps.drop_last(), i);
        }
    }

    proof fn lemma_no_first_error(&self, src: NodeID, dst: NodeID, ps: Seq<(PortIdx, PortIdx)>)
        requires
            self.first_pair_error(src, dst, ps) is None,
        ensures
            forall|j: int| 0 <= j < ps.len() ==> self.pair_error(src, dst, #[trigger] ps[j]) is None,
        decreases ps.len(),
    {
        if ps.len() > 0 {
            self.lemma_no_first_error(src, dst, ps.drop_last());
            assert forall|j: int| 0 <= j < ps.len() implies self.pair_error(src, dst, #[trigger] ps[j]) is None by {
                if j < ps.len() - 1 {
                    assert(ps.drop_last()[j] == ps[j]);
                }
            }
        }
    }

    /// The error, if any, of connecting output port `p.0` of `src` to input
    /// port `p.1` of `dst`.
    fn check_pair(&self, src: NodeID, dst: NodeID, src_entry: &NodeEntry, dst_entry: &NodeEntry, p: (PortIdx, PortIdx)) -> (r: Option<AddEdgeError>)
        requires
            self.wf(),
            self.nodes_view().contains_key(src.0),
            self.nodes_view().contains_key(dst.0),
            *src_entry == self.nodes_view()[src.0],
            *dst_entry == self.nodes_view()[dst.0],
        ensures
            r == self.pair_error(src, dst, p),
    {
        let (src_port, dst_port) = p;
        if src_port >= src_entry.channel_config.num_outputs.get() {
            return Some(AddEdgeError::OutPortOutOfRange {
                node: src,
                port_idx: src_port,
                num_out_ports: src_entry.channel_config.num_outputs,
            });
        }
        if dst_port >= dst_entry.channel_config.num_inputs.get() {
            return Some(AddEdgeError::InPortOutOfRange {
                node: dst,
                port_idx: dst_port,
                num_in_ports: dst_entry.channel_config.num_inputs,
            });
        }
        proof {
            self.lemma_index_matches_edges((src.0, src_port, dst.0, dst_port));
        }
        if edge_index_contains(&self.existing_edges, (src.0, src_port, dst.0, dst_port)) {
            return Some(AddEdgeError::EdgeAlreadyExists);
        }
        None
    }

    /// Adds connections (edges) from output ports of `src_node` to input
    /// ports of `dst_node`: one for each distinct (output port, input port)
    /// pair of `ports_src_dst`, in order. If `check_for_cycles`, the
    /// connections are refused when they would close a cycle.
    ///
    /// On success the IDs of the new edges are returned in order. On an
    /// error the graph is left unmodified.
    pub fn connect(
        &mut self,
        src_node: NodeID,
        dst_node: NodeID,
        ports_src_dst: &[(PortIdx, PortIdx)],
        check_for_cycles: bool,
    ) -> (r: Result<Vec<EdgeID>, AddEdgeError>)
        requires
            old(self).wf(),
            old(self).edges_view().dom().len() + ports_src_dst@.len() < u32::MAX,
        ensures
            final(self).wf(),
            final(self).same_nodes(old(self)),
            old(self).connect_error(src_node, dst_node, ports_src_dst@) matches Some(e) ==> r == Err::<
                Vec<EdgeID>,
                AddEdgeError,
            >(e) && *final(self) == *old(self),
            old(self).connect_error(src_node, dst_node, ports_src_dst@) is None ==> {
                let added = dedup(ports_src_dst@);
                &&& (r is Ok <==> (!check_for_cycles || is_acyclic_with_edge(
                    old(self).nodes_view().dom(),
                    old(self).edges_view(),
                    src_node.0,
                    dst_node.0,
                    added.len() > 0,
                )))
                &&& r matches Ok(ids) ==> extends_with(
                    final(self).edges_view(),
                    old(self).edges_view(),
                    edge_id_bits(ids@),
                    src_node,
                    dst_node,
                    added,
                ) && final(self).needs_compile_view()
                &&& r is Err ==> r == Err::<Vec<EdgeID>, AddEdgeError>(AddEdgeError::CycleDetected)
                    && final(self).same_graph(old(self))
            },
    {
        let ghost ps = ports_src_dst@;
        let prev_needs_compile = self.needs_compile;
        let ghost old_edges = self.edges_view();
        let src_entry = match node_arena_get(&self.nodes, src_node.0) {
            Some(e) => e,
            None => return Err(AddEdgeError::SrcNodeNotFound(src_node)),
        };
        let dst_entry = match node_arena_get(&self.nodes, dst_node.0) {
            Some(e) => e,
            None => return Err(AddEdgeError::DstNodeNotFound(dst_node)),
        };
        if src_node.0 == dst_node.0 {
            return Err(AddEdgeError::CycleDetected);
        }
        let mut i: usize = 0;
        while i < ports_src_dst.len()
            invariant
                i <= ps.len(),
                ps == ports_src_dst@,
                self.wf(),
                *self == *old(self),
                self.nodes_view().contains_key(src_node.0),
                self.nodes_view().contains_key(dst_node.0),
                src_entry == self.nodes_view()[src_node.0],
                dst_entry == self.nodes_view()[dst_node.0],
                src_node.0 != dst_node.0,
                self.first_pair_error(src_node, dst_node, ps.take(i as int)) is None,
                prev_needs_compile == old(self).needs_compile_view(),
            decreases ps.len() - i,
        {
            let p = ports_src_dst[i];
            proof {
                assert(ps.take(i + 1).drop_last() =~= ps.take(i as int));
                assert(ps.take(i + 1).last() == p);
            }
            match self.check_pair(src_node, dst_node, &src_entry, &dst_entry, p) {
                Some(e) => {
                    proof {
                        assert(self.first_pair_error(src_node, dst_node, ps.take(i + 1)) == Some(e));
                        self.lemma_first_error_prefix(src_node, dst_node, ps, i + 1);
                        assert(old(self).connect_error(src_node, dst_node, ps) == Some(e));
                    }
                    return Err(e);
                },
                None => {},
            }
            i += 1;
        }
        proof {
            assert(ps.take(ps.len() as int) =~= ps);
            self.lemma_no_first_error(src_node, dst_node, ps);
            lemma_dedup_subset(ps);
        }

        let mut edge_ids: Vec<EdgeID> = Vec::new();
        let mut i: usize = 0;
        assert(dedup(ps.take(0)) =~= Seq::<(PortIdx, PortIdx)>::empty());
        while i < ports_src_dst.len()
            invariant
                i <= ps.len(),
                ps == ports_src_dst@,
                self.wf(),
                self.same_nodes(old(self)),
                old(self).wf(),
                old_edges == old(self).edges_view(),
                old(self).nodes_view().contains_key(src_node.0),
                old(self).nodes_view().contains_key(dst_node.0),
                src_node.0 != dst_node.0,
                forall|j: int| 0 <= j < ps.len() ==> old(self).pair_error(src_node, dst_node, #[trigger] ps[j]) is None,
                old_edges.dom().len() + ps.len() < u32::MAX,
                edge_id_bits(edge_ids@).len() <= i,
                extends_with(self.edges_view(), old_edges, edge_id_bits(edge_ids@), src_node, dst_node, dedup(ps.take(i as int))),
                forall|x: (PortIdx, PortIdx)| dedup(ps.take(i as int)).contains(x) ==> ps.contains(x),
                self.needs_compile_view() == (old(self).needs_compile_view() || edge_ids.len() > 0),
                prev_needs_compile == old(self).needs_compile_view(),
            decreases ps.len() - i,
        {
            let (src_port, dst_port) = ports_src_dst[i];
            let h: EdgeHash = (src_node.0, src_port, dst_node.0, dst_port);
            let ghost ids = edge_id_bits(edge_ids@);
            let ghost added = dedup(ps.take(i as int));
            let ghost cur = self.edges_view();
            proof {
                assert(ps.take(i + 1).drop_last() =~= ps.take(i as int));
                assert(ps.take(i + 1).last() == (src_port, dst_port));
                assert(old(self).pair_error(src_node, dst_node, ps[i as int]) is None);
                lemma_dedup_subset(ps.take(i + 1));
                self.lemma_index_matches_edges(h);
                assert(has_edge_hash(cur, h) <==> added.contains((src_port, dst_port))) by {
                    if has_edge_hash(cur, h) {
                        let k = choose|k: u64| #![trigger cur[k]] cur.contains_key(k) && edge_hash(cur[k]) == h;
                        if old_edges.contains_key(k) {
                            assert(old_edges[k] == cur[k]);
                            assert(has_edge_hash(old_edges, h));
                        } else {
                            assert(ids.contains(k));
                            let j = choose|j: int| 0 <= j < ids.len() && ids[j] == k;
                            assert(cur[ids[j]] == edge_of(ids[j], src_node, dst_node, added[j]));
                        }
                    }
                    if added.contains((src_port, dst_port)) {
                        let j = choose|j: int| 0 <= j < added.len() && added[j] == (src_port, dst_port);
                        assert(cur.contains_key(ids[j]));
                        assert(cur[ids[j]] == edge_of(ids[j], src_node, dst_node, added[j]));
                    }
                }
            }
            if edge_index_contains(&self.existing_edges, h) {
                // The caller gave us more than one of the same edge.
                proof {
                    assert(dedup(ps.take(i + 1)) == added);
                    assert forall|x: (PortIdx, PortIdx)| dedup(ps.take(i + 1)).contains(x) implies ps.contains(x) by {
                        assert(added.contains(x));
                    }
                }
                i += 1;
                continue;
            }
            proof {
                assert(dedup(ps.take(i + 1)) == added.push((src_port, dst_port)));
                assert(ps.contains((src_port, dst_port))) by {
                    assert(ps[i as int] == (src_port, dst_port));
                }
                assert(cur.dom() =~= old_edges.dom().union(ids.to_set()));
                ids.unique_seq_to_set();
                vstd::seq_lib::seq_to_set_is_finite(ids);
                vstd::set_lib::lemma_len_union(old_edges.dom(), ids.to_set());
            }
            let new_edge = Edge {
                id: EdgeID(0),
                src_node,
                src_port,
                dst_node,
                dst_port,
            };
            let k = edge_arena_insert(&mut self.edges, new_edge);
            edge_arena_set(&mut self.edges, k, Edge { id: EdgeID(k), ..new_edge });
            edge_index_insert(&mut self.existing_edges, h, k);
            edge_ids.push(EdgeID(k));
            self.needs_compile = true;
            proof {
                let ids2 = edge_id_bits(edge_ids@);
                assert(ids2 =~= ids.push(k));
                assert(!ids.contains(k));
                let added2 = dedup(ps.take(i + 1));
                assert forall|j: int| 0 <= j < ids2.len() implies !old_edges.contains_key(#[trigger] ids2[j])
                    && self.edges_view().contains_key(ids2[j]) && self.edges_view()[ids2[j]] == edge_of(
                    ids2[j],
                    src_node,
                    dst_node,
                    added2[j],
                ) by {
                    if j < ids.len() {
                        assert(ids2[j] == ids[j]);
                        assert(added2[j] == added[j]);
                    }
                }
                assert forall|k2: u64| #[trigger] self.edges_view().contains_key(k2) implies self.edge_wf(
                    k2,
                    self.edges_view()[k2],
                ) by {
                    if k2 != k {
                        assert(cur.contains_key(k2));
                    } else {
                        assert(added2[added.len() as int] == (src_port, dst_port));
                        assert(added2.contains((src_port, dst_port)));
                    }
                }
                assert forall|k2: u64| #[trigger] self.edges_view().contains_key(k2) implies edge_index_contents(
                    self.existing_edges,
                ).contains_key(edge_hash(self.edges_view()[k2])) && edge_index_contents(
                    self.existing_edges,
                )[edge_hash(self.edges_view()[k2])] == k2 by {
                    if k2 != k {
                        assert(cur.contains_key(k2));
                        assert(edge_hash(cur[k2]) != h);
                    }
                }
                assert forall|h2: EdgeHash| #[trigger]
                    edge_index_contents(self.existing_edges).contains_key(h2) implies self.edges_view().contains_key(
                        edge_index_contents(self.existing_edges)[h2],
                    ) && edge_hash(self.edges_view()[edge_index_contents(self.existing_edges)[h2]]) == h2 by {
                    if h2 != h {
                        let k3 = edge_index_contents(self.existing_edges)[h2];
                        assert(cur.contains_key(k3));
                        assert(k3 != k);
                    }
                }
                assert(ids2.no_duplicates()) by {
                    assert forall|a: int, b: int| 0 <= a < ids2.len() && 0 <= b < ids2.len() && a != b implies ids2[a] != ids2[b] by {
                        if a < ids.len() && b < ids.len() {
                            assert(ids2[a] == ids[a] && ids2[b] == ids[b]);
                        } else if a < ids.len() {
                            assert(ids.contains(ids2[a]));
                        } else if b < ids.len() {
                            assert(ids.contains(ids2[b]));
                        }
                    }
                }
                assert forall|k2: u64| #[trigger] self.edges_view().contains_key(k2) <==> (old_edges.contains_key(k2) || ids2.contains(k2)) by {
                    if ids2.contains(k2) && k2 != k {
                        let j = choose|j: int| 0 <= j < ids2.len() && ids2[j] == k2;
                        assert(ids[j] == k2);
                    }
                    if ids.contains(k2) {
                        let j = choose|j: int| 0 <= j < ids.len() && ids[j] == k2;
                        assert(ids2[j] == k2);
                    }
                    assert(ids2[ids.len() as int] == k);
                }
                assert forall|k2: u64| #[trigger] old_edges.contains_key(k2) implies self.edges_view()[k2] == old_edges[k2] by {
                    assert(cur.contains_key(k2));
                }
                assert(extends_with(self.edges_view(), old_edges, ids2, src_node, dst_node, added2));
                assert forall|x: (PortIdx, PortIdx)| added2.contains(x) implies ps.contains(x) by {
                    if x != (src_port, dst_port) {
                        let j = choose|j: int| 0 <= j < added2.len() && added2[j] == x;
                        assert(added[j] == x);
                    }
                }
            }
            i += 1;
        }
        proof {
            assert(ps.take(ps.len() as int) =~= ps);
        }
        if check_for_cycles {
            let ghost new_edges = self.edges_view();
            let ghost ids = edge_id_bits(edge_ids@);
            proof {
                lemma_extends_acyclic(old(self).nodes_view().dom(), new_edges, old_edges, ids, src_node, dst_node, dedup(ps));
            }
            if self.cycle_detected() {
                self.disconnect(src_node, dst_node, ports_src_dst);
                self.needs_compile = prev_needs_compile;
                proof {
                    let gone = keys_with_port_pairs(new_edges, src_node, dst_node, ps);
                    assert(gone =~= ids.to_set()) by {
                        assert forall|k: u64| gone.contains(k) <==> ids.to_set().contains(k) by {
                            if gone.contains(k) {
                                if old_edges.contains_key(k) {
                                    let pr = (new_edges[k].src_port, new_edges[k].dst_port);
                                    let j = choose|j: int| 0 <= j < ps.len() && ps[j] == pr;
                                    assert(old(self).pair_error(src_node, dst_node, ps[j]) is None);
                                    assert(edge_hash(old_edges[k]) == (src_node.0, ps[j].0, dst_node.0, ps[j].1));
                                    assert(has_edge_hash(old_edges, (src_node.0, ps[j].0, dst_node.0, ps[j].1)));
                                }
                            }
                            if ids.to_set().contains(k) {
                                let j = choose|j: int| 0 <= j < ids.len() && ids[j] == k;
                                assert(new_edges[ids[j]] == edge_of(ids[j], src_node, dst_node, dedup(ps)[j]));
                                assert(dedup(ps).contains(dedup(ps)[j]));
                            }
                        }
                    }
                    assert(new_edges.remove_keys(gone) =~= old_edges);
                    if ids.len() > 0 {
                        assert(gone.contains(ids[0]));
                    } else {
                        assert(gone =~= Set::<u64>::empty());
                    }
                }
                return Err(AddEdgeError::CycleDetected);
            }
        }
        self.needs_compile = true;
        Ok(edge_ids)
    }
}


/// Whether the given channel configuration lies within what `info`
/// supports.
pub open spec fn channel_config_supported(info: NodeInfo, c: ChannelConfig) -> bool {
    &&& info.num_min_supported_inputs.count() <= c.num_inputs.count() <= info.num_max_supported_inputs.count()
    &&& info.num_min_supported_outputs.count() <= c.num_outputs.count() <= info.num_max_supported_outputs.count()
    &&& info.equal_num_ins_and_outs ==> c.num_inputs.count() == c.num_outputs.count()
}

/// Picks the channel configuration a node is added with: the custom one
/// if given, the node's default otherwise. Refused when it lies outside
/// the counts the node supports, or when the node asks for as many
/// inputs as outputs and the counts differ.
pub fn check_channel_config(info: &NodeInfo, custom_channel_config: Option<ChannelConfig>) -> (r: Result<ChannelConfig, NodeError>)
    requires
        info.num_min_supported_inputs.count() <= info.num_max_supported_inputs.count(),
        info.num_min_supported_outputs.count() <= info.num_max_supported_outputs.count(),
    ensures
        ({
            let c = match custom_channel_config {
                Some(c) => c,
                None => info.default_channel_config,
            };
            &&& r is Ok <==> channel_config_supported(*info, c)
            &&& r matches Ok(c2) ==> c2 == c
            &&& r matches Err(e) ==> e == (NodeError::InvalidChannelConfig { channel_config: c })
        }),
{
    let channel_config = match custom_channel_config {
        Some(c) => c,
        None => info.default_channel_config,
    };
    let ni = channel_config.num_inputs.get();
    let no = channel_config.num_outputs.get();
    if ni < info.num_min_supported_inputs.get() || ni > info.num_max_supported_inputs.get()
        || no < info.num_min_supported_outputs.get() || no > info.num_max_supported_outputs.get()
    {
        return Err(NodeError::InvalidChannelConfig { channel_config });
    }
    if info.equal_num_ins_and_outs {
        if ni != no {
            return Err(NodeError::InvalidChannelConfig { channel_config });
        }
    }
    Ok(channel_config)
}

impl<E> AudioGraph<E> {
    /// Adds a node with the given channel configuration (one that
    /// [`check_channel_config`] accepted and whose processor was
    /// activated), and returns its new, globally unique ID.
    pub fn add_node(&mut self, channel_config: ChannelConfig, info: &NodeInfo) -> (r: NodeID)
        requires
            old(self).wf(),
            old(self).nodes_view().dom().len() < u32::MAX,
            channel_config_supported(*info, channel_config),
        ensures
            final(self).wf(),
            !old(self).nodes_view().contains_key(r.0),
            final(self).nodes_view() == old(self).nodes_view().insert(
                r.0,
                NodeEntry { id: r, channel_config, activated: false, updates: info.updates },
            ),
            final(self).edges_view() == old(self).edges_view(),
            final(self).graph_in_id_view() == old(self).graph_in_id_view(),
            final(self).graph_out_id_view() == old(self).graph_out_id_view(),
            final(self).queued_events() == old(self).queued_events(),
            final(self).removed_since_compile() == old(self).removed_since_compile(),
            final(self).pending_deactivations() == old(self).pending_deactivations(),
            final(self).needs_compile_view(),
    {
        let entry = NodeEntry { id: NodeID(0), channel_config, activated: false, updates: info.updates };
        let k = node_arena_insert(&mut self.nodes, entry);
        let new_id = NodeID(k);
        node_arena_set(&mut self.nodes, k, NodeEntry { id: new_id, ..entry });
        self.needs_compile = true;
        proof {
            assert forall|k2: u64| #[trigger] self.edges_view().contains_key(k2) implies self.edge_wf(
                k2,
                self.edges_view()[k2],
            ) by {
                assert(old(self).edge_wf(k2, self.edges_view()[k2]));
            }
        }
        new_id
    }

    /// Adds a node with the channel configuration asked for
    /// (`custom_channel_config`, else the node's default), and returns its
    /// new, globally unique ID. Refused, leaving the graph as it is, when
    /// that configuration lies outside what the node supports (see
    /// [`check_channel_config`]).
    pub fn try_add_node(&mut self, info: &NodeInfo, custom_channel_config: Option<ChannelConfig>) -> (r: Result<
        NodeID,
        NodeError,
    >)
        requires
            old(self).wf(),
            old(self).nodes_view().dom().len() < u32::MAX,
            info.num_min_supported_inputs.count() <= info.num_max_supported_inputs.count(),
            info.num_min_supported_outputs.count() <= info.num_max_supported_outputs.count(),
        ensures
            final(self).wf(),
            ({
                let cfg = match custom_channel_config {
                    Some(c) => c,
                    None => info.default_channel_config,
                };
                &&& r is Err <==> !channel_config_supported(*info, cfg)
                &&& r matches Err(e) ==> e == (NodeError::InvalidChannelConfig { channel_config: cfg })
                    && *final(self) == *old(self)
                &&& r matches Ok(id) ==> {
                    &&& !old(self).nodes_view().contains_key(id.0)
                    &&& final(self).nodes_view() == old(self).nodes_view().insert(
                        id.0,
                        NodeEntry { id, channel_config: cfg, activated: false, updates: info.updates },
                    )
                    &&& final(self).edges_view() == old(self).edges_view()
                    &&& final(self).graph_in_id_view() == old(self).graph_in_id_view()
                    &&& final(self).graph_out_id_view() == old(self).graph_out_id_view()
                    &&& final(self).queued_events() == old(self).queued_events()
                    &&& final(self).removed_since_compile() == old(self).removed_since_compile()
                    &&& final(self).pending_deactivations() == old(self).pending_deactivations()
                    &&& final(self).needs_compile_view()
                }
            }),
    {
        match check_channel_config(info, custom_channel_config) {
            Ok(cfg) => Ok(self.add_node(cfg, info)),
            Err(e) => Err(e),
        }
    }

    /// Queues an event for a node's processor; it is dropped if no node has
    /// the given ID.
    pub fn queue_event(&mut self, event: NodeEvent<E>)
        requires
            old(self).wf(),
        ensures
            final(self).wf(),
            final(self).queued_events() == (if old(self).nodes_view().contains_key(event.node_id.0) {
                old(self).queued_events().push(event)
            } else {
                old(self).queued_events()
            }),
            final(self).nodes_view() == old(self).nodes_view(),
            final(self).edges_view() == old(self).edges_view(),
            final(self).graph_in_id_view() == old(self).graph_in_id_view(),
            final(self).graph_out_id_view() == old(self).graph_out_id_view(),
            final(self).removed_since_compile() == old(self).removed_since_compile(),
            final(self).pending_deactivations() == old(self).pending_deactivations(),
            final(self).needs_compile_view() == old(self).needs_compile_view(),
    {
        if !node_arena_contains(&self.nodes, event.node_id.0) {
            return;
        }
        self.event_group.push(event);
    }

    /// Hands out the queued events, if there are any; the queue is left
    /// empty.
    pub fn flush_events(&mut self) -> (r: Option<Vec<NodeEvent<E>>>)
        requires
            old(self).wf(),
        ensures
            final(self).wf(),
            r is None <==> old(self).queued_events().len() == 0,
            r matches Some(v) ==> v@ == old(self).queued_events(),
            final(self).queued_events().len() == 0,
            final(self).nodes_view() == old(self).nodes_view(),
            final(self).edges_view() == old(self).edges_view(),
            final(self).graph_in_id_view() == old(self).graph_in_id_view(),
            final(self).graph_out_id_view() == old(self).graph_out_id_view(),
            final(self).removed_since_compile() == old(self).removed_since_compile(),
            final(self).pending_deactivations() == old(self).pending_deactivations(),
            final(self).needs_compile_view() == old(self).needs_compile_view(),
    {
        if self.event_group.len() == 0 {
            return None;
        }
        let mut next_event_group = match self.event_group_pool.pop() {
            Some(v) => v,
            None => Vec::with_capacity(self.initial_event_group_capacity),
        };
        proof {
            if old(self).event_group_pool@.len() > 0 {
                assert(old(self).event_group_pool@[old(self).event_group_pool@.len() - 1]@.len() == 0);
            }
        }
        core::mem::swap(&mut next_event_group, &mut self.event_group);
        proof {
            assert forall|i: int| 0 <= i < self.event_group_pool@.len() implies (#[trigger] self.event_group_pool@[i])@.len() == 0 by {
                assert(self.event_group_pool@[i] == old(self).event_group_pool@[i]);
            }
        }
        Some(next_event_group)
    }

    /// Takes back a group of events handed out by [`Self::flush_events`] to
    /// re-use its allocation.
    pub fn return_event_group(&mut self, event_group: Vec<NodeEvent<E>>)
        requires
            old(self).wf(),
        ensures
            final(self).wf(),
            final(self).queued_events() == old(self).queued_events(),
            final(self).nodes_view() == old(self).nodes_view(),
            final(self).edges_view() == old(self).edges_view(),
            final(self).graph_in_id_view() == old(self).graph_in_id_view(),
            final(self).graph_out_id_view() == old(self).graph_out_id_view(),
            final(self).removed_since_compile() == old(self).removed_since_compile(),
            final(self).pending_deactivations() == old(self).pending_deactivations(),
            final(self).needs_compile_view() == old(self).needs_compile_view(),
            final(self).pooled_event_groups() == old(self).pooled_event_groups() + 1,
    {
        let mut event_group = event_group;
        event_group.clear();
        self.event_group_pool.push(event_group);
        proof {
            assert forall|i: int| 0 <= i < self.event_group_pool@.len() implies (#[trigger] self.event_group_pool@[i])@.len() == 0 by {
                if i < old(self).event_group_pool@.len() {
                    assert(self.event_group_pool@[i] == old(self).event_group_pool@[i]);
                }
            }
        }
    }
}


/// The bits of each node ID in a list.
pub open spec fn node_id_bits(s: Seq<NodeID>) -> Seq<u64> {
    s.map_values(|n: NodeID| n.0)
}

/// The keys of the edges with an endpoint in `ks`.
pub open spec fn keys_touching_set(edges: Map<u64, Edge>, ks: Set<u64>) -> Set<u64> {
    edges.dom().filter(|k: u64| ks.contains(edges[k].src_node.0) || ks.contains(edges[k].dst_node.0))
}

/// `pending` after the nodes of `ks` were removed from `nodes`: each
/// removed node that was activated is added.
pub open spec fn pending_after_removal(pending: Map<u64, NodeEntry>, nodes: Map<u64, NodeEntry>, ks: Set<u64>) -> Map<u64, NodeEntry> {
    Map::new(
        |k: u64| pending.contains_key(k) || (ks.contains(k) && nodes[k].activated),
        |k: u64|
            if ks.contains(k) && nodes[k].activated {
                nodes[k]
            } else {
                pending[k]
            },
    )
}

impl<E> AudioGraph<E> {
    /// The entries of all nodes of the graph, each once, in an order that is
    /// not defined.
    pub fn nodes(&self) -> (r: Vec<NodeEntry>)
        requires
            self.wf(),
        ensures
            r@.map_values(|e: NodeEntry| e.id.0).no_duplicates(),
            r@.map_values(|e: NodeEntry| e.id.0).to_set() == self.nodes_view().dom(),
            forall|j: int| 0 <= j < r@.len() ==> self.nodes_view().contains_key(#[trigger] r@[j].id.0) && self.nodes_view()[r@[j].id.0] == r@[j],
    {
        let keys = node_arena_keys(&self.nodes);
        let mut out: Vec<NodeEntry> = Vec::new();
        let mut i: usize = 0;
        while i < keys.len()
            invariant
                i <= keys.len(),
                self.wf(),
                keys@.to_set() == self.nodes_view().dom(),
                out@.len() == i,
                out@.map_values(|e: NodeEntry| e.id.0) == keys@.take(i as int),
                forall|j: int| 0 <= j < out@.len() ==> self.nodes_view().contains_key(#[trigger] out@[j].id.0) && self.nodes_view()[out@[j].id.0] == out@[j],
            decreases keys.len() - i,
        {
            let k = keys[i];
            assert(keys@.contains(k));
            let e = node_arena_get(&self.nodes, k).unwrap();
            assert(e.id.0 == k);
            let ghost prev = out@;
            out.push(e);
            proof {
                assert(out@ == prev.push(e));
                let mv = out@.map_values(|e: NodeEntry| e.id.0);
                let kt = keys@.take(i + 1);
                assert forall|j: int| 0 <= j < i + 1 implies #[trigger] mv[j] == kt[j] by {
                    if j < i {
                        assert(out@[j] == prev[j]);
                        assert(prev.map_values(|e: NodeEntry| e.id.0)[j] == keys@.take(i as int)[j]);
                    }
                }
                assert(out@.map_values(|e: NodeEntry| e.id.0) =~= keys@.take(i + 1));
            }
            i += 1;
        }
        proof {
            assert(keys@.take(keys.len() as int) =~= keys@);
        }
        out
    }

    /// All edges of the graph, each once, in an order that is not defined.
    pub fn edges(&self) -> (r: Vec<Edge>)
        requires
            self.wf(),
        ensures
            r@.map_values(|e: Edge| e.id.0).no_duplicates(),
            r@.map_values(|e: Edge| e.id.0).to_set() == self.edges_view().dom(),
            forall|j: int| 0 <= j < r@.len() ==> self.edges_view().contains_key(#[trigger] r@[j].id.0) && self.edges_view()[r@[j].id.0] == r@[j],
    {
        let keys = edge_arena_keys(&self.edges);
        let mut out: Vec<Edge> = Vec::new();
        let mut i: usize = 0;
        while i < keys.len()
            invariant
                i <= keys.len(),
                self.wf(),
                keys@.to_set() == self.edges_view().dom(),
                out@.len() == i,
                out@.map_values(|e: Edge| e.id.0) == keys@.take(i as int),
                forall|j: int| 0 <= j < out@.len() ==> self.edges_view().contains_key(#[trigger] out@[j].id.0) && self.edges_view()[out@[j].id.0] == out@[j],
            decreases keys.len() - i,
        {
            let k = keys[i];
            assert(keys@.contains(k));
            let e = edge_arena_get(&self.edges, k).unwrap();
            proof {
                assert(self.edge_wf(k, e));
                assert(e.id.0 == k);
            }
            let ghost prev = out@;
            out.push(e);
            proof {
                assert(out@ == prev.push(e));
                let mv = out@.map_values(|e: Edge| e.id.0);
                let kt = keys@.take(i + 1);
                assert forall|j: int| 0 <= j < i + 1 implies #[trigger] mv[j] == kt[j] by {
                    if j < i {
                        assert(out@[j] == prev[j]);
                        assert(prev.map_values(|e: Edge| e.id.0)[j] == keys@.take(i as int)[j]);
                    }
                }
                assert(out@.map_values(|e: Edge| e.id.0) =~= keys@.take(i + 1));
            }
            i += 1;
        }
        proof {
            assert(keys@.take(keys.len() as int) =~= keys@);
        }
        out
    }

    /// Removes all nodes from the graph but the graph input and output
    /// nodes, together with their edges.
    pub fn reset(&mut self)
        requires
            old(self).wf(),
        ensures
            final(self).wf(),
            ({
                let ks = old(self).nodes_view().dom().remove(old(self).graph_in_id_view().0).remove(
                    old(self).graph_out_id_view().0,
                );
                let n = old(self).removed_since_compile().len();
                &&& final(self).nodes_view() == old(self).nodes_view().remove_keys(ks)
                &&& final(self).edges_view() == old(self).edges_view().remove_keys(
                    keys_touching_set(old(self).edges_view(), ks),
                )
                &&& final(self).removed_since_compile().subrange(0, n as int) == old(self).removed_since_compile()
                &&& node_id_bits(final(self).removed_since_compile().subrange(n as int, final(self).removed_since_compile().len() as int)).no_duplicates()
                &&& node_id_bits(final(self).removed_since_compile().subrange(n as int, final(self).removed_since_compile().len() as int)).to_set() == ks
                &&& final(self).pending_deactivations() == pending_after_removal(
                    old(self).pending_deactivations(),
                    old(self).nodes_view(),
                    ks,
                )
                &&& final(self).graph_in_id_view() == old(self).graph_in_id_view()
                &&& final(self).graph_out_id_view() == old(self).graph_out_id_view()
                &&& final(self).queued_events() == old(self).queued_events()
                &&& final(self).needs_compile_view() == (old(self).needs_compile_view() || !ks.is_empty())
            }),
    {
        let ghost old_nodes = self.nodes_view();
        let ghost old_edges = self.edges_view();
        let ghost gin = self.graph_in_id.0;
        let ghost gout = self.graph_out_id.0;
        let ghost n = self.removed_since_compile().len();
        let keys = node_arena_keys(&self.nodes);
        let mut i: usize = 0;
        let ghost mut done: Set<u64> = Set::empty();
        assert(old_nodes.remove_keys(done) =~= old_nodes);
        assert(keys_touching_set(old_edges, done) =~= Set::<u64>::empty());
        assert(old_edges.remove_keys(Set::<u64>::empty()) =~= old_edges);
        assert(pending_after_removal(old(self).pending_deactivations(), old_nodes, done) =~= old(self).pending_deactivations());
        assert(self.removed_since_compile().subrange(n as int, n as int) =~= Seq::<NodeID>::empty());
        while i < keys.len()
            invariant
                i <= keys.len(),
                self.wf(),
                keys@.no_duplicates(),
                keys@.to_set() == old_nodes.dom(),
                gin == old(self).graph_in_id_view().0,
                gout == old(self).graph_out_id_view().0,
                old_nodes == old(self).nodes_view(),
                old_edges == old(self).edges_view(),
                old(self).wf(),
                n == old(self).removed_since_compile().len(),
                done == keys@.take(i as int).to_set().remove(gin).remove(gout),
                self.nodes_view() == old_nodes.remove_keys(done),
                self.edges_view() == old_edges.remove_keys(keys_touching_set(old_edges, done)),
                self.removed_since_compile().len() >= n,
                self.removed_since_compile().subrange(0, n as int) == old(self).removed_since_compile(),
                node_id_bits(self.removed_since_compile().subrange(n as int, self.removed_since_compile().len() as int)).no_duplicates(),
                node_id_bits(self.removed_since_compile().subrange(n as int, self.removed_since_compile().len() as int)).to_set() == done,
                self.pending_deactivations() == pending_after_removal(old(self).pending_deactivations(), old_nodes, done),
                self.graph_in_id_view() == old(self).graph_in_id_view(),
                self.graph_out_id_view() == old(self).graph_out_id_view(),
                self.queued_events() == old(self).queued_events(),
                self.needs_compile_view() == (old(self).needs_compile_view() || !done.is_empty()),
            decreases keys.len() - i,
        {
            let k = keys[i];
            let ghost prev_done = done;
            let ghost prev_removed = self.removed_since_compile();
            let ghost cur_edges = self.edges_view();
            proof {
                assert(keys@.take(i + 1) =~= keys@.take(i as int).push(k));
                keys@.take(i as int).lemma_push_to_set_commute(k);
                assert(!keys@.take(i as int).contains(k)) by {
                    if keys@.take(i as int).contains(k) {
                        let j = choose|j: int| 0 <= j < i && keys@.take(i as int)[j] == k;
                        assert(keys@[j] == keys@[i as int]);
                    }
                }
                assert(keys@.contains(k));
            }
            if k != self.graph_in_id.0 && k != self.graph_out_id.0 {
                proof {
                    done = done.insert(k);
                    assert(!prev_done.contains(k));
                    assert(self.nodes_view().contains_key(k));
                }
                let res = self.remove_node(NodeID(k));
                proof {
                    assert(res is Ok);
                    assert(self.nodes_view() =~= old_nodes.remove_keys(done));
                    assert(keys_touching_set(old_edges, done) =~= keys_touching_set(old_edges, prev_done).union(keys_touching(cur_edges, NodeID(k))));
                    assert(self.edges_view() =~= old_edges.remove_keys(keys_touching_set(old_edges, done)));
                    let tail = self.removed_since_compile().subrange(n as int, self.removed_since_compile().len() as int);
                    let ptail = prev_removed.subrange(n as int, prev_removed.len() as int);
                    assert(tail =~= ptail.push(NodeID(k)));
                    assert(node_id_bits(tail) =~= node_id_bits(ptail).push(k));
                    node_id_bits(ptail).lemma_push_to_set_commute(k);
                    assert(!node_id_bits(ptail).contains(k)) by {
                        if node_id_bits(ptail).contains(k) {
                            assert(node_id_bits(ptail).to_set().contains(k));
                        }
                    }
                    assert(self.removed_since_compile().subrange(0, n as int) =~= prev_removed.subrange(0, n as int));
                    assert(self.pending_deactivations() =~= pending_after_removal(old(self).pending_deactivations(), old_nodes, done));
                }
            } else {
                proof {
                    assert(done =~= keys@.take(i + 1).to_set().remove(gin).remove(gout));
                }
            }
            i += 1;
        }
        proof {
            assert(keys@.take(keys.len() as int) =~= keys@);
        }
    }
}


impl<E> AudioGraph<E> {
    /// Sets whether a node's processor is active; returns the previous
    /// state, or `None` if no node has the given ID.
    pub fn set_node_activated(&mut self, node_id: NodeID, activated: bool) -> (r: Option<bool>)
        requires
            old(self).wf(),
        ensures
            final(self).wf(),
            r == (if old(self).nodes_view().contains_key(node_id.0) {
                Some(old(self).nodes_view()[node_id.0].activated)
            } else {
                None
            }),
            final(self).nodes_view() == (if old(self).nodes_view().contains_key(node_id.0) {
                old(self).nodes_view().insert(node_id.0, NodeEntry { activated, ..old(self).nodes_view()[node_id.0] })
            } else {
                old(self).nodes_view()
            }),
            final(self).edges_view() == old(self).edges_view(),
            final(self).graph_in_id_view() == old(self).graph_in_id_view(),
            final(self).graph_out_id_view() == old(self).graph_out_id_view(),
            final(self).queued_events() == old(self).queued_events(),
            final(self).removed_since_compile() == old(self).removed_since_compile(),
            final(self).pending_deactivations() == old(self).pending_deactivations(),
            final(self).needs_compile_view() == old(self).needs_compile_view(),
    {
        match node_arena_get(&self.nodes, node_id.0) {
            Some(e) => {
                node_arena_set(&mut self.nodes, node_id.0, NodeEntry { activated, ..e });
                proof {
                    assert forall|k: u64| #[trigger] self.edges_view().contains_key(k) implies self.edge_wf(
                        k,
                        self.edges_view()[k],
                    ) by {
                        assert(old(self).edge_wf(k, self.edges_view()[k]));
                    }
                }
                Some(e.activated)
            },
            None => None,
        }
    }

    /// Marks every node inactive and forgets the pending removals, as when
    /// the audio stream stops. Returns the IDs of the nodes that were
    /// active, whose processors must be deactivated.
    pub fn deactivate(&mut self) -> (r: Vec<NodeID>)
        requires
            old(self).wf(),
        ensures
            final(self).wf(),
            node_id_bits(r@).no_duplicates(),
            node_id_bits(r@).to_set() == old(self).nodes_view().dom().filter(|k: u64| old(self).nodes_view()[k].activated),
            final(self).nodes_view().dom() == old(self).nodes_view().dom(),
            forall|k: u64| #[trigger] final(self).nodes_view().contains_key(k) ==> final(self).nodes_view()[k]
                == (NodeEntry { activated: false, ..old(self).nodes_view()[k] }),
            final(self).edges_view() == old(self).edges_view(),
            final(self).graph_in_id_view() == old(self).graph_in_id_view(),
            final(self).graph_out_id_view() == old(self).graph_out_id_view(),
            final(self).queued_events() == old(self).queued_events(),
            final(self).removed_since_compile().len() == 0,
            final(self).pending_deactivations().is_empty(),
            final(self).needs_compile_view() == old(self).needs_compile_view(),
    {
        let ghost old_nodes = self.nodes_view();
        let keys = node_arena_keys(&self.nodes);
        let mut was_active: Vec<NodeID> = Vec::new();
        let mut i: usize = 0;
        while i < keys.len()
            invariant
                i <= keys.len(),
                self.wf(),
                keys@.no_duplicates(),
                keys@.to_set() == old_nodes.dom(),
                old_nodes == old(self).nodes_view(),
                self.nodes_view().dom() == old_nodes.dom(),
                forall|k: u64| #[trigger] self.nodes_view().contains_key(k) ==> self.nodes_view()[k] == (if keys@.take(i as int).contains(k) {
                    NodeEntry { activated: false, ..old_nodes[k] }
                } else {
                    old_nodes[k]
                }),
                node_id_bits(was_active@).no_duplicates(),
                node_id_bits(was_active@).to_set() == keys@.take(i as int).to_set().filter(|k: u64| old_nodes[k].activated),
                self.edges_view() == old(self).edges_view(),
                self.graph_in_id_view() == old(self).graph_in_id_view(),
                self.graph_out_id_view() == old(self).graph_out_id_view(),
                self.queued_events() == old(self).queued_events(),
                self.removed_since_compile() == old(self).removed_since_compile(),
                self.pending_deactivations() == old(self).pending_deactivations(),
                self.needs_compile_view() == old(self).needs_compile_view(),
            decreases keys.len() - i,
        {
            let k = keys[i];
            let ghost prev_bits = node_id_bits(was_active@);
            proof {
                assert(keys@.contains(k));
                assert(keys@.take(i + 1) =~= keys@.take(i as int).push(k));
                keys@.take(i as int).lemma_push_to_set_commute(k);
                assert(!keys@.take(i as int).contains(k)) by {
                    if keys@.take(i as int).contains(k) {
                        let j = choose|j: int| 0 <= j < i && keys@.take(i as int)[j] == k;
                        assert(keys@[j] == keys@[i as int]);
                    }
                }
            }
            let e = node_arena_get(&self.nodes, k).unwrap();
            if e.activated {
                was_active.push(NodeID(k));
                proof {
                    assert(node_id_bits(was_active@) =~= prev_bits.push(k));
                    prev_bits.lemma_push_to_set_commute(k);
                    assert(!prev_bits.contains(k)) by {
                        if prev_bits.contains(k) {
                            assert(prev_bits.to_set().contains(k));
                        }
                    }
                }
            }
            let _ = self.set_node_activated(NodeID(k), false);
            proof {
                assert(node_id_bits(was_active@).to_set() =~= keys@.take(i + 1).to_set().filter(|k: u64| old_nodes[k].activated));
                assert forall|k2: u64| #[trigger] self.nodes_view().contains_key(k2) implies self.nodes_view()[k2] == (if keys@.take(i + 1).contains(k2) {
                    NodeEntry { activated: false, ..old_nodes[k2] }
                } else {
                    old_nodes[k2]
                }) by {
                    assert(keys@.take(i + 1).contains(k2) == (keys@.take(i as int).contains(k2) || k2 == k)) by {
                        assert(keys@.take(i + 1).to_set().contains(k2) == keys@.take(i + 1).contains(k2));
                    }
                }
            }
            i += 1;
        }
        node_map_clear(&mut self.active_nodes_to_remove);
        self.nodes_to_remove_from_schedule.clear();
        proof {
            assert(keys@.take(keys.len() as int) =~= keys@);
            assert(old_nodes.dom().filter(|k: u64| old_nodes[k].activated) =~= keys@.to_set().filter(|k: u64| old_nodes[k].activated));
        }
        was_active
    }

    /// Hands back, for each node the audio thread has released, the entry
    /// of that node if it was removed while active; those processors can
    /// now be deactivated.
    #[verifier::spinoff_prover]
    pub fn on_schedule_returned(&mut self, removed_nodes: &[NodeID]) -> (r: Vec<NodeEntry>)
        requires
            old(self).wf(),
        ensures
            final(self).wf(),
            final(self).pending_deactivations() == old(self).pending_deactivations().remove_keys(
                removed_nodes@.map_values(|n: NodeID| n.0).to_set(),
            ),
            forall|j: int| 0 <= j < r@.len() ==> old(self).pending_deactivations().contains_key(#[trigger] r@[j].id.0)
                && old(self).pending_deactivations()[r@[j].id.0] == r@[j] && removed_nodes@.contains(r@[j].id),
            final(self).nodes_view() == old(self).nodes_view(),
            final(self).edges_view() == old(self).edges_view(),
            final(self).graph_in_id_view() == old(self).graph_in_id_view(),
            final(self).graph_out_id_view() == old(self).graph_out_id_view(),
            final(self).queued_events() == old(self).queued_events(),
            final(self).removed_since_compile() == old(self).removed_since_compile(),
            final(self).needs_compile_view() == old(self).needs_compile_view(),
    {
        let ghost ids = removed_nodes@.map_values(|n: NodeID| n.0);
        let ghost pend = self.pending_deactivations();
        let mut out: Vec<NodeEntry> = Vec::new();
        let mut i: usize = 0;
        assert(pend.remove_keys(ids.take(0).to_set()) =~= pend);
        while i < removed_nodes.len()
            invariant
                i <= removed_nodes.len(),
                ids == removed_nodes@.map_values(|n: NodeID| n.0),
                pend == old(self).pending_deactivations(),
                self.wf(),
                self.pending_deactivations() == pend.remove_keys(ids.take(i as int).to_set()),
                forall|j: int| 0 <= j < out@.len() ==> pend.contains_key(#[trigger] out@[j].id.0) && pend[out@[j].id.0] == out@[j] && removed_nodes@.contains(out@[j].id),
                self.nodes_view() == old(self).nodes_view(),
                self.edges_view() == old(self).edges_view(),
                self.graph_in_id_view() == old(self).graph_in_id_view(),
                self.graph_out_id_view() == old(self).graph_out_id_view(),
                self.queued_events() == old(self).queued_events(),
                self.removed_since_compile() == old(self).removed_since_compile(),
                self.needs_compile_view() == old(self).needs_compile_view(),
            decreases removed_nodes.len() - i,
        {
            let id = removed_nodes[i];
            proof {
                assert(ids[i as int] == id.0);
                assert(ids.take(i + 1) =~= ids.take(i as int).push(id.0));
                ids.take(i as int).lemma_push_to_set_commute(id.0);
            }
            match node_map_remove(&mut self.active_nodes_to_remove, id.0) {
                Some(entry) => {
                    proof {
                        assert(pend.contains_key(id.0));
                        assert(pend[id.0] == entry);
                        assert(removed_nodes@.contains(id)) by {
                            assert(removed_nodes@[i as int] == id);
                        }
                    }
                    let ghost before = out@;
                    out.push(entry);
                    proof {
                        assert forall|j: int| 0 <= j < out@.len() implies pend.contains_key(#[trigger] out@[j].id.0)
                            && pend[out@[j].id.0] == out@[j] && removed_nodes@.contains(out@[j].id) by {
                            if j < before.len() {
                                assert(out@[j] == before[j]);
                            }
                        }
                    }
                },
                None => {},
            }
            proof {
                assert(self.pending_deactivations() =~= pend.remove_keys(ids.take(i + 1).to_set()));
            }
            i += 1;
        }
        proof {
            assert(ids.take(removed_nodes.len() as int) =~= ids);
        }
        out
    }
}


impl<E> AudioGraph<E> {
    /// Records that the graph has been compiled into a new schedule, and
    /// hands out the IDs of the nodes removed since the last compile, which
    /// the new schedule must drop.
    pub fn mark_compiled(&mut self) -> (r: Vec<NodeID>)
        requires
            old(self).wf(),
        ensures
            final(self).wf(),
            r@ == old(self).removed_since_compile(),
            final(self).removed_since_compile().len() == 0,
            !final(self).needs_compile_view(),
            final(self).nodes_view() == old(self).nodes_view(),
            final(self).edges_view() == old(self).edges_view(),
            final(self).graph_in_id_view() == old(self).graph_in_id_view(),
            final(self).graph_out_id_view() == old(self).graph_out_id_view(),
            final(self).queued_events() == old(self).queued_events(),
            final(self).pending_deactivations() == old(self).pending_deactivations(),
    {
        let removed = self.nodes_to_remove_from_schedule.clone();
        self.needs_compile = false;
        self.nodes_to_remove_from_schedule.clear();
        proof {
            assert(removed@ =~= old(self).removed_since_compile());
        }
        removed
    }

    /// The IDs of the nodes that ask to be updated on every update of the
    /// graph, each once, in an order that is not defined.
    pub fn nodes_to_update(&self) -> (r: Vec<NodeID>)
        requires
            self.wf(),
        ensures
            node_id_bits(r@).no_duplicates(),
            node_id_bits(r@).to_set() == self.nodes_view().dom().filter(|k: u64| self.nodes_view()[k].updates),
    {
        let keys = node_arena_keys(&self.nodes);
        let mut out: Vec<NodeID> = Vec::new();
        let mut i: usize = 0;
        while i < keys.len()
            invariant
                i <= keys.len(),
                self.wf(),
                keys@.no_duplicates(),
                keys@.to_set() == self.nodes_view().dom(),
                node_id_bits(out@).no_duplicates(),
                node_id_bits(out@).to_set() == keys@.take(i as int).to_set().filter(|k: u64| self.nodes_view()[k].updates),
            decreases keys.len() - i,
        {
            let k = keys[i];
            let ghost prev_bits = node_id_bits(out@);
            proof {
                assert(keys@.contains(k));
                assert(keys@.take(i + 1) =~= keys@.take(i as int).push(k));
                keys@.take(i as int).lemma_push_to_set_commute(k);
                assert(!keys@.take(i as int).contains(k)) by {
                    if keys@.take(i as int).contains(k) {
                        let j = choose|j: int| 0 <= j < i && keys@.take(i as int)[j] == k;
                        assert(keys@[j] == keys@[i as int]);
                    }
                }
            }
            let e = node_arena_get(&self.nodes, k).unwrap();
            if e.updates {
                out.push(NodeID(k));
                proof {
                    assert(node_id_bits(out@) =~= prev_bits.push(k));
                    prev_bits.lemma_push_to_set_commute(k);
                    assert(!prev_bits.contains(k)) by {
                        if prev_bits.contains(k) {
                            assert(prev_bits.to_set().contains(k));
                        }
                    }
                }
            }
            proof {
                assert(node_id_bits(out@).to_set() =~= keys@.take(i + 1).to_set().filter(|k: u64| self.nodes_view()[k].updates));
            }
            i += 1;
        }
        proof {
            assert(keys@.take(keys.len() as int) =~= keys@);
        }
        out
    }
}

/// A law of the graph: removing, with `disconnect`, the port pairs that a
/// successful `connect` just added restores the edges the graph had
/// before the `connect`.
pub proof fn law_disconnect_undoes_connect(
    before: Map<u64, Edge>,
    connected: Map<u64, Edge>,
    ids: Seq<u64>,
    src: NodeID,
    dst: NodeID,
    ps: Seq<(PortIdx, PortIdx)>,
)
    requires
        forall|j: int| 0 <= j < ps.len() ==> !has_edge_hash(before, (src.0, (#[trigger] ps[j]).0, dst.0, ps[j].1)),
        extends_with(connected, before, ids, src, dst, dedup(ps)),
    ensures
        connected.remove_keys(keys_with_port_pairs(connected, src, dst, ps)) == before,
{
    lemma_dedup_subset(ps);
    let gone = keys_with_port_pairs(connected, src, dst, ps);
    assert forall|k: u64| before.contains_key(k) implies !gone.contains(k) by {
        if gone.contains(k) {
            let pr = (connected[k].src_port, connected[k].dst_port);
            let j = choose|j: int| 0 <= j < ps.len() && ps[j] == pr;
            assert(connected[k] == before[k]);
            assert(edge_hash(before[k]) == (src.0, ps[j].0, dst.0, ps[j].1));
            assert(has_edge_hash(before, (src.0, ps[j].0, dst.0, ps[j].1)));
        }
    }
    assert forall|j: int| 0 <= j < ids.len() implies gone.contains(#[trigger] ids[j]) by {
        assert(connected[ids[j]] == edge_of(ids[j], src, dst, dedup(ps)[j]));
        assert(dedup(ps).contains(dedup(ps)[j]));
    }
    assert(connected.remove_keys(gone) =~= before);
}

/// A law of the graph: a `connect` that checks for cycles keeps an acyclic
/// graph acyclic.
pub proof fn law_checked_connect_keeps_acyclic(
    nodes: Set<u64>,
    before: Map<u64, Edge>,
    connected: Map<u64, Edge>,
    ids: Seq<u64>,
    src: NodeID,
    dst: NodeID,
    ps: Seq<(PortIdx, PortIdx)>,
)
    requires
        extends_with(connected, before, ids, src, dst, dedup(ps)),
        is_acyclic_with_edge(nodes, before, src.0, dst.0, dedup(ps).len() > 0),
    ensures
        is_acyclic(nodes, connected),
{
    lemma_extends_acyclic(nodes, connected, before, ids, src, dst, dedup(ps));
}

} // verus!

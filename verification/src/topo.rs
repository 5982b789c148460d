//! Topological orders and cycle detection on a graph given as node keys
//! and dense edge lists.
use crate::graph::{has_edge_between, is_acyclic, is_topological_order};
use crate::ids::Edge;
use vstd::prelude::*;

verus! {

/// The edge list `(src, dst)` (positions in `keys`) describes `edges`:
/// the `t`-th dense edge is the edge stored under `ekeys[t]`, and `ekeys`
/// lists every edge key once.
pub open spec fn dense_edges_describe(
    keys: Seq<u64>,
    ekeys: Seq<u64>,
    src: Seq<usize>,
    dst: Seq<usize>,
    edges: Map<u64, Edge>,
) -> bool {
    &&& ekeys.to_set() == edges.dom()
    &&& src.len() == ekeys.len()
    &&& dst.len() == ekeys.len()
    &&& forall|t: int|
        #![trigger src[t]]
        #![trigger dst[t]]
        0 <= t < ekeys.len() ==> src[t] < keys.len() && dst[t] < keys.len() && keys[src[t] as int]
            == edges[ekeys[t]].src_node.0 && keys[dst[t] as int] == edges[ekeys[t]].dst_node.0
}

/// Every edge into a node listed in `order` comes from a node listed
/// before it.
pub open spec fn preds_listed_before(
    order: Seq<u64>,
    keys: Seq<u64>,
    src: Seq<usize>,
    dst: Seq<usize>,
) -> bool {
    forall|t: int, a: int|
        #![trigger src[t], order[a]]
        0 <= t < src.len() && 0 <= a < order.len() && keys[dst[t] as int] == order[a]
            ==> order.subrange(0, a).contains(keys[src[t] as int])
}

/// The least index of `o`, from `start` on, that holds an element of `r`.
pub proof fn least_index_in(o: Seq<u64>, r: Set<u64>, start: int) -> (k: int)
    requires
        0 <= start,
        exists|i: int| start <= i < o.len() && r.contains(#[trigger] o[i]),
    ensures
        start <= k < o.len(),
        r.contains(o[k]),
        forall|i: int| start <= i < k ==> !r.contains(#[trigger] o[i]),
    decreases o.len() - start,
{
    if r.contains(o[start]) {
        start
    } else {
        let w = choose|i: int| start <= i < o.len() && r.contains(#[trigger] o[i]);
        assert(start + 1 <= w);
        least_index_in(o, r, start + 1)
    }
}

/// A complete listing that keeps every predecessor before its node is a
/// topological order.
pub proof fn lemma_complete_order_is_topological(
    order: Seq<u64>,
    keys: Seq<u64>,
    ekeys: Seq<u64>,
    src: Seq<usize>,
    dst: Seq<usize>,
    nodes: Set<u64>,
    edges: Map<u64, Edge>,
)
    requires
        order.no_duplicates(),
        order.to_set() == nodes,
        dense_edges_describe(keys, ekeys, src, dst, edges),
        preds_listed_before(order, keys, src, dst),
    ensures
        is_topological_order(order, nodes, edges),
{
    assert forall|i: int, j: int| 0 <= i <= j < order.len() implies !has_edge_between(
        edges,
        #[trigger] order[j],
        #[trigger] order[i],
    ) by {
        if has_edge_between(edges, order[j], order[i]) {
            let k = choose|k: u64|
                #![trigger edges[k]]
                edges.contains_key(k) && edges[k].src_node.0 == order[j] && edges[k].dst_node.0
                    == order[i];
            assert(ekeys.to_set().contains(k));
            let t = choose|t: int| 0 <= t < ekeys.len() && ekeys[t] == k;
            assert(keys[dst[t] as int] == order[i]);
            assert(keys[src[t] as int] == order[j]);
            assert(order.subrange(0, i).contains(order[j]));
            let p = choose|p: int| 0 <= p < i && order.subrange(0, i)[p] == order[j];
            assert(order[p] == order[j]);
        }
    }
}

/// If every remaining node (an element of `rest`) has an edge from a
/// remaining node, no topological order exists.
pub proof fn lemma_stuck_implies_cycle(
    keys: Seq<u64>,
    ekeys: Seq<u64>,
    src: Seq<usize>,
    dst: Seq<usize>,
    nodes: Set<u64>,
    edges: Map<u64, Edge>,
    rest: Set<u64>,
)
    requires
        keys.to_set() == nodes,
        dense_edges_describe(keys, ekeys, src, dst, edges),
        rest.subset_of(nodes),
        exists|x: u64| rest.contains(x),
        forall|i: int|
            0 <= i < keys.len() && rest.contains(#[trigger] keys[i]) ==> exists|t: int|
                0 <= t < src.len() && dst[t] == i && rest.contains(#[trigger] keys[src[t] as int]),
    ensures
        !is_acyclic(nodes, edges),
{
    if is_acyclic(nodes, edges) {
        let o = choose|o: Seq<u64>| is_topological_order(o, nodes, edges);
        let x = choose|x: u64| rest.contains(x);
        assert(o.to_set().contains(x));
        let wi = choose|i: int| 0 <= i < o.len() && o[i] == x;
        assert(rest.contains(o[wi]));
        let q = least_index_in(o, rest, 0);
        let r = o[q];
        assert(keys.to_set().contains(r));
        let i = choose|i: int| 0 <= i < keys.len() && keys[i] == r;
        assert(rest.contains(keys[i]));
        let t = choose|t: int|
            0 <= t < src.len() && dst[t] == i && rest.contains(#[trigger] keys[src[t] as int]);
        let s = keys[src[t] as int];
        assert(o.to_set().contains(s));
        let m = choose|m: int| 0 <= m < o.len() && o[m] == s;
        assert(rest.contains(o[m]));
        assert(q <= m);
        let k = ekeys[t];
        assert(ekeys.to_set().contains(k));
        assert(edges.contains_key(k));
        assert(edges[k].src_node.0 == o[m] && edges[k].dst_node.0 == o[q]);
        assert(has_edge_between(edges, o[m], o[q]));
    }
}

} // verus!

//! The audio thread's event scheduler.
//!
//! Immediate events are buffered until their node is processed in the next
//! block. Scheduled events are kept in a slab arena; a list of `(slot,
//! time)` pairs, sorted by time when it is needed, tells which of them
//! elapse in each processing block.
//!
//! The scheduler is seen through its *pending* events: the scheduled events
//! that have not elapsed yet, each with the sample time it is scheduled at.
use crate::arena::{
    sched_arena_contains, sched_arena_contents, sched_arena_get, sched_arena_insert_at, sched_arena_new,
    sched_arena_remove, sched_arena_replace,
};
use crate::clumps::{clump_contents, clumps_clear, clumps_get, clumps_len, clumps_new, clumps_try_push};
use crate::config::{BufferOutOfSpaceMode, ClearScheduledEventsType};
use crate::event::{is_musical_event, EventTime, EventTimeKind, NodeEvent, NodeEventListIndex};
use crate::ids::NodeID;
use crate::runs::{
    is_run_start, lemma_marked_gap, lemma_push_mark, lemma_marked_prefix, lemma_marked_props, lemma_nothing_before_first_run,
    lemma_nothing_between_runs, lemma_starts_props, marked_upto, run_starts_upto,
};
use arrayvec::ArrayVec;
use thunderdome::Arena;
use vstd::prelude::*;

verus! {

/// What the scheduler keeps per node on the audio thread.
pub struct NodeEventSchedulerData {
    /// The number of immediate events for the node in the current block.
    pub num_immediate_events: usize,
    /// Where each clump of the node's immediate events starts in the
    /// immediate event buffer (at most 8 clumps are recorded).
    pub immediate_event_clump_indices: ArrayVec<u32, 8>,
    /// The number of the node's scheduled events on the musical transport.
    pub num_scheduled_musical_events: usize,
    /// The number of the node's other scheduled events.
    pub num_scheduled_non_musical_events: usize,
    /// The number of the node's scheduled events that elapse in the current
    /// block and have not been handed to it yet.
    pub num_scheduled_events_this_block: usize,
    /// The position in the sorted event list of the node's first scheduled
    /// event that elapses in the current block.
    pub first_sorted_event_index: usize,
}

impl NodeEventSchedulerData {
    /// A record with no events.
    pub fn new() -> (r: NodeEventSchedulerData)
        ensures
            r.num_immediate_events == 0,
            clump_contents(r.immediate_event_clump_indices) == Seq::<u32>::empty(),
            r.num_scheduled_musical_events == 0,
            r.num_scheduled_non_musical_events == 0,
            r.num_scheduled_events_this_block == 0,
            r.first_sorted_event_index == 0,
    {
        NodeEventSchedulerData {
            num_immediate_events: 0,
            immediate_event_clump_indices: clumps_new(),
            num_scheduled_musical_events: 0,
            num_scheduled_non_musical_events: 0,
            num_scheduled_events_this_block: 0,
            first_sorted_event_index: 0,
        }
    }
}

/// The number of events in `s` that are (`musical`) or are not (`!musical`)
/// scheduled on the musical transport.
pub open spec fn count_kind<E>(s: Seq<(NodeEvent<E>, i64)>, musical: bool) -> nat
    decreases s.len(),
{
    if s.len() == 0 {
        0
    } else {
        count_kind(s.drop_last(), musical) + (if is_musical_event(s.last().0) == musical {
            1nat
        } else {
            0nat
        })
    }
}

pub proof fn lemma_count_push<E>(s: Seq<(NodeEvent<E>, i64)>, x: (NodeEvent<E>, i64), musical: bool)
    ensures
        count_kind(s.push(x), musical) == count_kind(s, musical) + (if is_musical_event(x.0)
            == musical {
            1nat
        } else {
            0nat
        }),
{
    assert(s.push(x).drop_last() =~= s);
}

pub proof fn lemma_count_bound<E>(s: Seq<(NodeEvent<E>, i64)>, musical: bool)
    ensures
        count_kind(s, musical) <= s.len(),
    decreases s.len(),
{
    if s.len() > 0 {
        lemma_count_bound(s.drop_last(), musical);
    }
}

pub proof fn lemma_count_append<E>(a: Seq<(NodeEvent<E>, i64)>, b: Seq<(NodeEvent<E>, i64)>, musical: bool)
    ensures
        count_kind(a + b, musical) == count_kind(a, musical) + count_kind(b, musical),
    decreases b.len(),
{
    if b.len() == 0 {
        assert(a + b =~= a);
    } else {
        lemma_count_append(a, b.drop_last(), musical);
        assert((a + b).drop_last() =~= a + b.drop_last());
        assert((a + b).last() == b.last());
    }
}

/// Two sequences whose events agree position by position on being musical
/// hold as many of each kind.
pub proof fn lemma_count_same_kinds<E>(s1: Seq<(NodeEvent<E>, i64)>, s2: Seq<(NodeEvent<E>, i64)>, musical: bool)
    requires
        s1.len() == s2.len(),
        forall|i: int| 0 <= i < s1.len() ==> is_musical_event(#[trigger] s1[i].0) == is_musical_event(s2[i].0),
    ensures
        count_kind(s1, musical) == count_kind(s2, musical),
    decreases s1.len(),
{
    if s1.len() > 0 {
        lemma_count_same_kinds(s1.drop_last(), s2.drop_last(), musical);
        assert(is_musical_event(s1[s1.len() - 1].0) == is_musical_event(s2[s1.len() - 1].0));
    }
}

/// Swapping two neighbours keeps the counts.
pub proof fn lemma_count_swap<E>(s: Seq<(NodeEvent<E>, i64)>, i: int, musical: bool)
    requires
        0 <= i,
        i + 1 < s.len(),
    ensures
        count_kind(s.update(i, s[i + 1]).update(i + 1, s[i]), musical) == count_kind(s, musical),
{
    let t = s.update(i, s[i + 1]).update(i + 1, s[i]);
    let pre = s.subrange(0, i);
    let post = s.subrange(i + 2, s.len() as int);
    assert(s =~= pre + seq![s[i], s[i + 1]] + post);
    assert(t =~= pre + seq![s[i + 1], s[i]] + post);
    lemma_count_append(pre + seq![s[i], s[i + 1]], post, musical);
    lemma_count_append(pre + seq![s[i + 1], s[i]], post, musical);
    lemma_count_append(pre, seq![s[i], s[i + 1]], musical);
    lemma_count_append(pre, seq![s[i + 1], s[i]], musical);
    lemma_count_push(seq![s[i]], s[i + 1], musical);
    lemma_count_push(seq![s[i + 1]], s[i], musical);
    lemma_count_push(Seq::<(NodeEvent<E>, i64)>::empty(), s[i], musical);
    lemma_count_push(Seq::<(NodeEvent<E>, i64)>::empty(), s[i + 1], musical);
    assert(seq![s[i], s[i + 1]] =~= seq![s[i]].push(s[i + 1]));
    assert(seq![s[i + 1], s[i]] =~= seq![s[i + 1]].push(s[i]));
    assert(seq![s[i]] =~= Seq::<(NodeEvent<E>, i64)>::empty().push(s[i]));
    assert(seq![s[i + 1]] =~= Seq::<(NodeEvent<E>, i64)>::empty().push(s[i + 1]));
}

/// The scheduled events of `group` for nodes in `present`, in order, each
/// with its time in samples.
pub open spec fn scheduled_for_present<E>(group: Seq<NodeEvent<E>>, present: Set<u64>) -> Seq<(NodeEvent<E>, i64)>
    decreases group.len(),
{
    if group.len() == 0 {
        Seq::empty()
    } else {
        let rest = scheduled_for_present(group.drop_last(), present);
        let e = group.last();
        if present.contains(e.node_id.0) && e.time is Some {
            rest.push((e, e.time->0.samples))
        } else {
            rest
        }
    }
}

/// The immediate events of `group` for nodes in `present`, in order.
pub open spec fn immediate_for_present<E>(group: Seq<NodeEvent<E>>, present: Set<u64>) -> Seq<Option<NodeEvent<E>>>
    decreases group.len(),
{
    if group.len() == 0 {
        Seq::empty()
    } else {
        let rest = immediate_for_present(group.drop_last(), present);
        let e = group.last();
        if present.contains(e.node_id.0) && e.time is None {
            rest.push(Some(e))
        } else {
            rest
        }
    }
}

/// The events of `s` that fit in `room` places when events that find no
/// room are dropped (`drop`), or all of them.
pub open spec fn accepted<T>(s: Seq<T>, room: int, drop: bool) -> Seq<T> {
    if drop && s.len() > room {
        s.take(room)
    } else {
        s
    }
}

/// The number of events of node `node` in `s` that are (`musical`) or are
/// not (`!musical`) scheduled on the musical transport.
pub open spec fn count_node_kind<E>(s: Seq<(NodeEvent<E>, i64)>, node: u64, musical: bool) -> nat
    decreases s.len(),
{
    if s.len() == 0 {
        0
    } else {
        count_node_kind(s.drop_last(), node, musical) + (if s.last().0.node_id.0 == node
            && is_musical_event(s.last().0) == musical {
            1nat
        } else {
            0nat
        })
    }
}

/// The number of immediate events of node `node` in `s`.
pub open spec fn count_node_immediate<E>(s: Seq<Option<NodeEvent<E>>>, node: u64) -> nat
    decreases s.len(),
{
    if s.len() == 0 {
        0
    } else {
        count_node_immediate(s.drop_last(), node) + (if s.last() matches Some(e) && e.node_id.0 == node {
            1nat
        } else {
            0nat
        })
    }
}

proof fn lemma_for_present_split<E>(a: Seq<NodeEvent<E>>, b: Seq<NodeEvent<E>>, present: Set<u64>)
    ensures
        scheduled_for_present(a + b, present) == scheduled_for_present(a, present) + scheduled_for_present(b, present),
        immediate_for_present(a + b, present) == immediate_for_present(a, present) + immediate_for_present(b, present),
    decreases b.len(),
{
    if b.len() == 0 {
        assert(a + b =~= a);
        assert(scheduled_for_present(a, present) + scheduled_for_present(b, present) =~= scheduled_for_present(a, present));
        assert(immediate_for_present(a, present) + immediate_for_present(b, present) =~= immediate_for_present(a, present));
    } else {
        lemma_for_present_split(a, b.drop_last(), present);
        assert((a + b).drop_last() =~= a + b.drop_last());
        assert((a + b).last() == b.last());
        assert(scheduled_for_present(a, present) + scheduled_for_present(b.drop_last(), present).push((b.last(), b.last().time->0.samples))
            =~= (scheduled_for_present(a, present) + scheduled_for_present(b.drop_last(), present)).push((b.last(), b.last().time->0.samples)));
        assert(immediate_for_present(a, present) + immediate_for_present(b.drop_last(), present).push(Some(b.last()))
            =~= (immediate_for_present(a, present) + immediate_for_present(b.drop_last(), present)).push(Some(b.last())));
    }
}

proof fn lemma_for_present_nodes<E>(g: Seq<NodeEvent<E>>, present: Set<u64>)
    ensures
        forall|i: int| 0 <= i < scheduled_for_present(g, present).len() ==> present.contains(
            (#[trigger] scheduled_for_present(g, present)[i]).0.node_id.0,
        ),
    decreases g.len(),
{
    if g.len() > 0 {
        lemma_for_present_nodes(g.drop_last(), present);
        let rest = scheduled_for_present(g.drop_last(), present);
        assert forall|i: int| 0 <= i < scheduled_for_present(g, present).len() implies present.contains(
            (#[trigger] scheduled_for_present(g, present)[i]).0.node_id.0,
        ) by {
            if i < rest.len() {
                assert(scheduled_for_present(g, present)[i] == rest[i]);
            }
        }
    }
}

proof fn lemma_count_node_push<E>(s: Seq<(NodeEvent<E>, i64)>, x: (NodeEvent<E>, i64), node: u64, musical: bool)
    ensures
        count_node_kind(s.push(x), node, musical) == count_node_kind(s, node, musical) + (if x.0.node_id.0 == node
            && is_musical_event(x.0) == musical {
            1nat
        } else {
            0nat
        }),
{
    assert(s.push(x).drop_last() =~= s);
}

proof fn lemma_count_node_bound<E>(s: Seq<(NodeEvent<E>, i64)>, node: u64, musical: bool)
    ensures
        count_node_kind(s, node, musical) <= s.len(),
    decreases s.len(),
{
    if s.len() > 0 {
        lemma_count_node_bound(s.drop_last(), node, musical);
    }
}

proof fn lemma_count_node_both_bound<E>(s: Seq<(NodeEvent<E>, i64)>, node: u64)
    ensures
        count_node_kind(s, node, true) + count_node_kind(s, node, false) <= s.len(),
    decreases s.len(),
{
    if s.len() > 0 {
        lemma_count_node_both_bound(s.drop_last(), node);
    }
}

proof fn lemma_count_immediate_push<E>(s: Seq<Option<NodeEvent<E>>>, x: Option<NodeEvent<E>>, node: u64)
    ensures
        count_node_immediate(s.push(x), node) == count_node_immediate(s, node) + (if x matches Some(e)
            && e.node_id.0 == node {
            1nat
        } else {
            0nat
        }),
{
    assert(s.push(x).drop_last() =~= s);
}

proof fn lemma_count_immediate_bound<E>(s: Seq<Option<NodeEvent<E>>>, node: u64)
    ensures
        count_node_immediate(s, node) <= s.len(),
    decreases s.len(),
{
    if s.len() > 0 {
        lemma_count_immediate_bound(s.drop_last(), node);
    }
}

proof fn lemma_count_node_append<E>(a: Seq<(NodeEvent<E>, i64)>, b: Seq<(NodeEvent<E>, i64)>, node: u64, musical: bool)
    ensures
        count_node_kind(a + b, node, musical) == count_node_kind(a, node, musical) + count_node_kind(b, node, musical),
    decreases b.len(),
{
    if b.len() == 0 {
        assert(a + b =~= a);
    } else {
        lemma_count_node_append(a, b.drop_last(), node, musical);
        assert((a + b).drop_last() =~= a + b.drop_last());
        assert((a + b).last() == b.last());
    }
}

/// Which pending events a pass over the sorted list keeps.
enum RetainRule {
    /// Keep the events of nodes that are present.
    KeepPresent,
    /// Remove the events of one node (or of all nodes) of the given kind.
    Clear(Option<NodeID>, ClearScheduledEventsType),
}

spec fn rule_keeps<E>(rule: RetainRule, present: Set<u64>, e: NodeEvent<E>) -> bool {
    match rule {
        RetainRule::KeepPresent => present.contains(e.node_id.0),
        RetainRule::Clear(node, kind) => clear_keeps_one(node, kind, e),
    }
}

/// A request to clear scheduled events.
#[derive(Debug, Clone, Copy, PartialEq, Eq, Structural)]
pub struct ClearScheduledEventsEvent {
    /// The node whose events are cleared; `None` clears the events of all
    /// nodes.
    pub node_id: Option<NodeID>,
    /// Which events are cleared.
    pub event_type: ClearScheduledEventsType,
}

/// Whether clearing the events of `kind` of `node` (of all nodes when
/// `None`) keeps `e`.
pub open spec fn clear_keeps_one<E>(node: Option<NodeID>, kind: ClearScheduledEventsType, e: NodeEvent<E>) -> bool {
    ||| (node matches Some(n) && e.node_id.0 != n.0)
    ||| (is_musical_event(e) && kind == ClearScheduledEventsType::NonMusicalOnly)
    ||| (!is_musical_event(e) && kind == ClearScheduledEventsType::MusicalOnly)
}

/// Whether the first `j` requests keep `e`. A request for a node that is
/// not in `present` clears nothing.
pub open spec fn clear_keeps<E>(msgs: Seq<ClearScheduledEventsEvent>, j: int, present: Set<u64>, e: NodeEvent<E>) -> bool {
    forall|t: int|
        0 <= t < j ==> (#[trigger] msgs[t].node_id matches Some(n) && !present.contains(n.0)) || clear_keeps_one(
            msgs[t].node_id,
            msgs[t].event_type,
            e,
        )
}

proof fn lemma_filter_filter<A>(s: Seq<A>, a: spec_fn(A) -> bool, b: spec_fn(A) -> bool)
    ensures
        s.filter(a).filter(b) == s.filter(|x: A| a(x) && b(x)),
    decreases s.len(),
{
    reveal(Seq::filter);
    if s.len() > 0 {
        lemma_filter_filter(s.drop_last(), a, b);
        let ab = |x: A| a(x) && b(x);
        s.drop_last().filter(a).lemma_filter_push(s.last(), b);
    }
}

proof fn lemma_filter_keep_all<A>(s: Seq<A>, p: spec_fn(A) -> bool)
    requires
        forall|i: int| 0 <= i < s.len() ==> p(#[trigger] s[i]),
    ensures
        s.filter(p) == s,
    decreases s.len(),
{
    reveal(Seq::filter);
    if s.len() > 0 {
        lemma_filter_keep_all(s.drop_last(), p);
        assert(p(s[s.len() - 1]));
        assert(s.drop_last().push(s.last()) =~= s);
    }
}

proof fn lemma_filter_subset<A>(s: Seq<A>, p: spec_fn(A) -> bool)
    ensures
        forall|i: int| 0 <= i < s.filter(p).len() ==> s.contains(#[trigger] s.filter(p)[i]),
    decreases s.len(),
{
    reveal(Seq::filter);
    if s.len() > 0 {
        lemma_filter_subset(s.drop_last(), p);
        assert forall|i: int| 0 <= i < s.filter(p).len() implies s.contains(#[trigger] s.filter(p)[i]) by {
            let sub = s.drop_last().filter(p);
            if i < sub.len() {
                assert(s.filter(p)[i] == sub[i]);
                assert(s.drop_last().contains(sub[i]));
                let j = choose|j: int| 0 <= j < s.drop_last().len() && s.drop_last()[j] == sub[i];
                assert(s[j] == sub[i]);
            } else {
                assert(s[s.len() - 1] == s.filter(p)[i]);
            }
        }
    }
}

/// Filtering by a predicate that keeps every event of `node` keeps that
/// node's counts.
proof fn lemma_count_node_filter<E>(s: Seq<(NodeEvent<E>, i64)>, p: spec_fn((NodeEvent<E>, i64)) -> bool, node: u64, musical: bool)
    requires
        forall|i: int| 0 <= i < s.len() && (#[trigger] s[i]).0.node_id.0 == node ==> p(s[i]),
    ensures
        count_node_kind(s.filter(p), node, musical) == count_node_kind(s, node, musical),
    decreases s.len(),
{
    reveal(Seq::filter);
    if s.len() > 0 {
        lemma_count_node_filter(s.drop_last(), p, node, musical);
        let sub = s.drop_last().filter(p);
        assert(s[s.len() - 1] == s.last());
        if p(s.last()) {
            lemma_count_node_push(sub, s.last(), node, musical);
        }
    }
}

proof fn lemma_count_zero_none<E>(s: Seq<(NodeEvent<E>, i64)>, musical: bool)
    requires
        count_kind(s, musical) == 0,
    ensures
        forall|i: int| 0 <= i < s.len() ==> is_musical_event(#[trigger] s[i].0) != musical,
    decreases s.len(),
{
    if s.len() > 0 {
        lemma_count_zero_none(s.drop_last(), musical);
        assert forall|i: int| 0 <= i < s.len() implies is_musical_event(#[trigger] s[i].0) != musical by {
            if i < s.len() - 1 {
                assert(s[i] == s.drop_last()[i]);
            }
        }
    }
}

proof fn lemma_count_node_zero_none<E>(s: Seq<(NodeEvent<E>, i64)>, node: u64, musical: bool)
    requires
        count_node_kind(s, node, musical) == 0,
    ensures
        forall|i: int| 0 <= i < s.len() ==> !((#[trigger] s[i]).0.node_id.0 == node && is_musical_event(s[i].0) == musical),
    decreases s.len(),
{
    if s.len() > 0 {
        lemma_count_node_zero_none(s.drop_last(), node, musical);
        assert forall|i: int| 0 <= i < s.len() implies !((#[trigger] s[i]).0.node_id.0 == node && is_musical_event(s[i].0) == musical) by {
            if i < s.len() - 1 {
                assert(s[i] == s.drop_last()[i]);
            }
        }
    }
}

proof fn lemma_count_node_absent<E>(s: Seq<(NodeEvent<E>, i64)>, node: u64, musical: bool)
    requires
        forall|i: int| 0 <= i < s.len() ==> (#[trigger] s[i]).0.node_id.0 != node,
    ensures
        count_node_kind(s, node, musical) == 0,
    decreases s.len(),
{
    if s.len() > 0 {
        assert forall|i: int| 0 <= i < s.drop_last().len() implies (#[trigger] s.drop_last()[i]).0.node_id.0 != node by {
            assert(s.drop_last()[i] == s[i]);
        }
        lemma_count_node_absent(s.drop_last(), node, musical);
        assert(s.last() == s[s.len() - 1]);
    }
}

/// Where nothing below `n` is marked, there are no marked positions and no
/// runs below `n`.
proof fn lemma_nothing_marked(m: Seq<bool>, n: int)
    requires
        forall|i: int| 0 <= i < n ==> !m[i],
    ensures
        marked_upto(m, n) == Seq::<int>::empty(),
        run_starts_upto(m, n) == Seq::<int>::empty(),
    decreases n,
{
    if n > 0 {
        lemma_nothing_marked(m, n - 1);
        assert(!m[n - 1]);
    }
}

proof fn lemma_count_node_swap<E>(s: Seq<(NodeEvent<E>, i64)>, i: int, node: u64, musical: bool)
    requires
        0 <= i,
        i + 1 < s.len(),
    ensures
        count_node_kind(s.update(i, s[i + 1]).update(i + 1, s[i]), node, musical) == count_node_kind(s, node, musical),
{
    let t = s.update(i, s[i + 1]).update(i + 1, s[i]);
    let pre = s.subrange(0, i);
    let post = s.subrange(i + 2, s.len() as int);
    assert(s =~= pre + seq![s[i], s[i + 1]] + post);
    assert(t =~= pre + seq![s[i + 1], s[i]] + post);
    lemma_count_node_append(pre + seq![s[i], s[i + 1]], post, node, musical);
    lemma_count_node_append(pre + seq![s[i + 1], s[i]], post, node, musical);
    lemma_count_node_append(pre, seq![s[i], s[i + 1]], node, musical);
    lemma_count_node_append(pre, seq![s[i + 1], s[i]], node, musical);
    lemma_count_node_push(seq![s[i]], s[i + 1], node, musical);
    lemma_count_node_push(seq![s[i + 1]], s[i], node, musical);
    lemma_count_node_push(Seq::<(NodeEvent<E>, i64)>::empty(), s[i], node, musical);
    lemma_count_node_push(Seq::<(NodeEvent<E>, i64)>::empty(), s[i + 1], node, musical);
    assert(seq![s[i], s[i + 1]] =~= seq![s[i]].push(s[i + 1]));
    assert(seq![s[i + 1], s[i]] =~= seq![s[i + 1]].push(s[i]));
    assert(seq![s[i]] =~= Seq::<(NodeEvent<E>, i64)>::empty().push(s[i]));
    assert(seq![s[i + 1]] =~= Seq::<(NodeEvent<E>, i64)>::empty().push(s[i + 1]));
}

proof fn lemma_multiset_swap<A>(s: Seq<A>, i: int)
    requires
        0 <= i,
        i + 1 < s.len(),
    ensures
        s.update(i, s[i + 1]).update(i + 1, s[i]).to_multiset() == s.to_multiset(),
{
    let t = s.update(i, s[i + 1]).update(i + 1, s[i]);
    let pre = s.subrange(0, i);
    let post = s.subrange(i + 2, s.len() as int);
    assert(s =~= pre + seq![s[i], s[i + 1]] + post);
    assert(t =~= pre + seq![s[i + 1], s[i]] + post);
    vstd::seq_lib::lemma_multiset_commutative(pre + seq![s[i], s[i + 1]], post);
    vstd::seq_lib::lemma_multiset_commutative(pre + seq![s[i + 1], s[i]], post);
    vstd::seq_lib::lemma_multiset_commutative(pre, seq![s[i], s[i + 1]]);
    vstd::seq_lib::lemma_multiset_commutative(pre, seq![s[i + 1], s[i]]);
    assert(seq![s[i], s[i + 1]] =~= seq![s[i]] + seq![s[i + 1]]);
    assert(seq![s[i + 1], s[i]] =~= seq![s[i + 1]] + seq![s[i]]);
    vstd::seq_lib::lemma_seq_union_to_multiset_commutative(seq![s[i]], seq![s[i + 1]]);
}

/// The number of entries of `s` holding an event of `node` that is
/// (`musical`) or is not (`!musical`) on the musical transport.
pub open spec fn count_block_kind<E>(s: Seq<(u32, Option<NodeEvent<E>>, i64)>, node: u64, musical: bool) -> nat
    decreases s.len(),
{
    if s.len() == 0 {
        0
    } else {
        count_block_kind(s.drop_last(), node, musical) + (if s.last().1 matches Some(e) && e.node_id.0 == node
            && is_musical_event(e) == musical {
            1nat
        } else {
            0nat
        })
    }
}

/// A block entry agrees with an event for counting `node`: it holds the
/// event, or holds nothing and the event is another node's.
pub open spec fn block_entry_matches<E>(b: (u32, Option<NodeEvent<E>>, i64), x: (NodeEvent<E>, i64), node: u64) -> bool {
    (b.1 == Some(x.0)) || (b.1 is None && x.0.node_id.0 != node)
}

proof fn lemma_count_block_matches<E>(b: Seq<(u32, Option<NodeEvent<E>>, i64)>, s: Seq<(NodeEvent<E>, i64)>, node: u64, musical: bool)
    requires
        b.len() == s.len(),
        forall|j: int| 0 <= j < b.len() ==> block_entry_matches(#[trigger] b[j], s[j], node),
    ensures
        count_block_kind(b, node, musical) == count_node_kind(s, node, musical),
    decreases b.len(),
{
    if b.len() > 0 {
        lemma_count_block_matches(b.drop_last(), s.drop_last(), node, musical);
        assert(block_entry_matches(b[b.len() - 1], s[s.len() - 1], node));
    }
}

proof fn lemma_count_node_zero_prefix<E>(s: Seq<(NodeEvent<E>, i64)>, node: u64, musical: bool)
    requires
        forall|j: int| 0 <= j < s.len() ==> (#[trigger] s[j]).0.node_id.0 != node,
    ensures
        count_node_kind(s, node, musical) == 0,
    decreases s.len(),
{
    if s.len() > 0 {
        lemma_count_node_zero_prefix(s.drop_last(), node, musical);
        assert(s[s.len() - 1] == s.last());
    }
}

/// The slots and times of `node`'s events among block entries, in order.
pub open spec fn node_entries<E>(s: Seq<(u32, Option<NodeEvent<E>>, i64)>, node: u64) -> Seq<(u32, i64)>
    decreases s.len(),
{
    if s.len() == 0 {
        Seq::empty()
    } else {
        let rest = node_entries(s.drop_last(), node);
        if s.last().1 matches Some(e) && e.node_id.0 == node {
            rest.push((s.last().0, s.last().2))
        } else {
            rest
        }
    }
}

/// Where in a block an event at `t` is handled, in frames from the block's
/// start at `clock`: events due at or before the start are handled at the
/// start.
pub open spec fn sub_chunk_offset(t: i64, clock: i64) -> int {
    if t <= clock {
        0
    } else {
        t - clock
    }
}

/// The starts of a node's sub-chunks: the start of the block, then each
/// later offset at which one of the node's events `w` (sorted by time) is
/// due.
pub open spec fn sub_chunk_starts(w: Seq<(u32, i64)>, clock: i64) -> Seq<int>
    decreases w.len(),
{
    if w.len() == 0 {
        seq![0]
    } else {
        let s = sub_chunk_starts(w.drop_last(), clock);
        let o = sub_chunk_offset(w.last().1, clock);
        if o > s.last() {
            s.push(o)
        } else {
            s
        }
    }
}

/// The events of `w` handed to the sub-chunk that starts at `start`.
pub open spec fn sub_chunk_events(w: Seq<(u32, i64)>, clock: i64, start: int) -> Seq<NodeEventListIndex> {
    w.filter(|x: (u32, i64)| sub_chunk_offset(x.1, clock) == start).map_values(|x: (u32, i64)| NodeEventListIndex::Scheduled(x.0))
}

proof fn lemma_node_entries_split<E>(a: Seq<(u32, Option<NodeEvent<E>>, i64)>, b: Seq<(u32, Option<NodeEvent<E>>, i64)>, node: u64)
    ensures
        node_entries(a + b, node) == node_entries(a, node) + node_entries(b, node),
    decreases b.len(),
{
    if b.len() == 0 {
        assert(a + b =~= a);
        assert(node_entries(a, node) + node_entries(b, node) =~= node_entries(a, node));
    } else {
        lemma_node_entries_split(a, b.drop_last(), node);
        assert((a + b).drop_last() =~= a + b.drop_last());
        assert((a + b).last() == b.last());
        assert(node_entries(a, node) + node_entries(b.drop_last(), node).push((b.last().0, b.last().2))
            =~= (node_entries(a, node) + node_entries(b.drop_last(), node)).push((b.last().0, b.last().2)));
    }
}

proof fn lemma_node_entries_len<E>(s: Seq<(u32, Option<NodeEvent<E>>, i64)>, node: u64)
    ensures
        node_entries(s, node).len() == count_block_kind(s, node, true) + count_block_kind(s, node, false),
    decreases s.len(),
{
    if s.len() > 0 {
        lemma_node_entries_len(s.drop_last(), node);
    }
}

/// Each of `node`'s entries comes from `s`, and they keep `s`'s order by
/// time.
proof fn lemma_node_entries_from<E>(s: Seq<(u32, Option<NodeEvent<E>>, i64)>, node: u64)
    ensures
        forall|i: int| 0 <= i < node_entries(s, node).len() ==> exists|j: int| 0 <= j < s.len() && (#[trigger] node_entries(s, node)[i]).0 == s[j].0
            && node_entries(s, node)[i].1 == s[j].2,
        (forall|a: int, b: int| 0 <= a <= b < s.len() ==> (#[trigger] s[a]).2 <= (#[trigger] s[b]).2) ==> (forall|a: int, b: int|
            0 <= a <= b < node_entries(s, node).len() ==> (#[trigger] node_entries(s, node)[a]).1 <= (#[trigger] node_entries(s, node)[b]).1),
    decreases s.len(),
{
    if s.len() > 0 {
        let rest = node_entries(s.drop_last(), node);
        let w = node_entries(s, node);
        lemma_node_entries_from(s.drop_last(), node);
        assert forall|i: int| 0 <= i < w.len() implies exists|j: int| 0 <= j < s.len() && (#[trigger] w[i]).0 == s[j].0 && w[i].1 == s[j].2 by {
            if i < rest.len() {
                assert(w[i] == rest[i]);
                let j = choose|j: int| 0 <= j < s.drop_last().len() && rest[i].0 == s.drop_last()[j].0 && rest[i].1 == s.drop_last()[j].2;
                assert(s[j] == s.drop_last()[j]);
            } else {
                assert(w[i] == (s.last().0, s.last().2));
                assert(s[s.len() - 1] == s.last());
            }
        }
        if forall|a: int, b: int| 0 <= a <= b < s.len() ==> (#[trigger] s[a]).2 <= (#[trigger] s[b]).2 {
            assert forall|a: int, b: int| 0 <= a <= b < s.drop_last().len() implies (#[trigger] s.drop_last()[a]).2 <= (#[trigger] s.drop_last()[b]).2 by {
                assert(s.drop_last()[a] == s[a]);
                assert(s.drop_last()[b] == s[b]);
            }
            assert forall|a: int, b: int| 0 <= a <= b < w.len() implies (#[trigger] w[a]).1 <= (#[trigger] w[b]).1 by {
                if b < rest.len() {
                    assert(w[a] == rest[a]);
                    assert(w[b] == rest[b]);
                } else if a < rest.len() {
                    assert(w[a] == rest[a]);
                    let j = choose|j: int| 0 <= j < s.drop_last().len() && rest[a].0 == s.drop_last()[j].0 && rest[a].1 == s.drop_last()[j].2;
                    assert(s[j] == s.drop_last()[j]);
                    assert(s[j].2 <= s[s.len() - 1].2);
                    assert(s[s.len() - 1] == s.last());
                }
            }
        }
    }
}

proof fn lemma_filter_none<A>(s: Seq<A>, p: spec_fn(A) -> bool)
    requires
        forall|i: int| 0 <= i < s.len() ==> !p(#[trigger] s[i]),
    ensures
        s.filter(p) == Seq::<A>::empty(),
    decreases s.len(),
{
    reveal(Seq::filter);
    if s.len() > 0 {
        lemma_filter_none(s.drop_last(), p);
        assert(!p(s[s.len() - 1]));
    }
}

proof fn lemma_count_block_matches_split<E>(s: Seq<(u32, Option<NodeEvent<E>>, i64)>, node: u64)
    requires
        s.len() > 0,
    ensures
        count_block_kind(s, node, true) == count_block_kind(seq![s[0]], node, true) + count_block_kind(s.subrange(1, s.len() as int), node, true),
        count_block_kind(s, node, false) == count_block_kind(seq![s[0]], node, false) + count_block_kind(s.subrange(1, s.len() as int), node, false),
{
    assert(s =~= seq![s[0]] + s.subrange(1, s.len() as int));
    lemma_count_block_append(seq![s[0]], s.subrange(1, s.len() as int), node, true);
    lemma_count_block_append(seq![s[0]], s.subrange(1, s.len() as int), node, false);
}

proof fn lemma_count_block_append<E>(a: Seq<(u32, Option<NodeEvent<E>>, i64)>, b: Seq<(u32, Option<NodeEvent<E>>, i64)>, node: u64, musical: bool)
    ensures
        count_block_kind(a + b, node, musical) == count_block_kind(a, node, musical) + count_block_kind(b, node, musical),
    decreases b.len(),
{
    if b.len() == 0 {
        assert(a + b =~= a);
    } else {
        lemma_count_block_append(a, b.drop_last(), node, musical);
        assert((a + b).drop_last() =~= a + b.drop_last());
        assert((a + b).last() == b.last());
    }
}

proof fn lemma_starts_first(w: Seq<(u32, i64)>, clock: i64)
    ensures
        sub_chunk_starts(w, clock).len() >= 1,
        sub_chunk_starts(w, clock)[0] == 0,
    decreases w.len(),
{
    if w.len() > 0 {
        lemma_starts_first(w.drop_last(), clock);
    }
}

/// Two sequences with the same events position by position hold as many
/// of each node's events of each kind.
proof fn lemma_count_node_same<E>(s1: Seq<(NodeEvent<E>, i64)>, s2: Seq<(NodeEvent<E>, i64)>, node: u64, musical: bool)
    requires
        s1.len() == s2.len(),
        forall|i: int| 0 <= i < s1.len() ==> (#[trigger] s1[i]).0 == s2[i].0,
    ensures
        count_node_kind(s1, node, musical) == count_node_kind(s2, node, musical),
    decreases s1.len(),
{
    if s1.len() > 0 {
        lemma_count_node_same(s1.drop_last(), s2.drop_last(), node, musical);
        assert(s1[s1.len() - 1].0 == s2[s1.len() - 1].0);
    }
}

/// The event stored in an arena slot.
proof fn lemma_empty_buffer_agrees<E>(s: EventScheduler<E>)
    requires
        s.immediate_events().len() == 0,
    ensures
        forall|k: u64, d: NodeEventSchedulerData|
            d.num_immediate_events == 0 && clump_contents(d.immediate_event_clump_indices).len() == 0 ==> #[trigger] s.imm_agrees(k, d),
{
    assert forall|k: u64, d: NodeEventSchedulerData|
        d.num_immediate_events == 0 && clump_contents(d.immediate_event_clump_indices).len() == 0 implies #[trigger] s.imm_agrees(k, d) by {
        let m = imm_mask(s.immediate_events(), k);
        assert(m.len() == 0);
        assert(marked_upto(m, 0) == Seq::<int>::empty());
        assert(run_starts_upto(m, 0) == Seq::<int>::empty());
    }
}

/// No record of `nodes` sits in the arena slot of `k` (an index's slot is
/// the lower half of its bits).
pub open spec fn slot_free(nodes: Map<u64, NodeEventSchedulerData>, k: u64) -> bool {
    forall|k2: u64| #[trigger] nodes.contains_key(k2) ==> k2 % 0x1_0000_0000 != k % 0x1_0000_0000
}

/// Which entries of the immediate event buffer are node `k`'s.
pub open spec fn imm_mask<E>(buf: Seq<Option<NodeEvent<E>>>, k: u64) -> Seq<bool> {
    Seq::new(buf.len(), |i: int| buf[i] is Some && buf[i]->0.node_id.0 == k)
}

/// Buffer positions as immediate-event indices.
pub open spec fn imm_list(s: Seq<int>) -> Seq<NodeEventListIndex> {
    s.map_values(|i: int| NodeEventListIndex::Immediate(i as u32))
}

pub open spec fn slot_event<E>(arena: Seq<Option<NodeEvent<E>>>, slot: u32) -> NodeEvent<E> {
    arena[slot as int]->0
}

/// One sub-chunk of a node's processing block: the frames it covers, the
/// clock at its start, and the events the node handles before processing
/// it.
pub struct SubChunk {
    pub start: usize,
    pub end: usize,
    pub sub_clock_samples: i64,
    pub events: Vec<NodeEventListIndex>,
}

/// The audio thread's event scheduler, generic over the event payload.
pub struct EventScheduler<E> {
    immediate_event_buffer: Vec<Option<NodeEvent<E>>>,
    immediate_event_buffer_capacity: usize,
    scheduled_event_arena: Vec<Option<NodeEvent<E>>>,
    scheduled_event_arena_free_slots: Vec<u32>,
    sorted_event_buffer_indices: Vec<(u32, i64)>,
    scheduled_events_need_sorting: bool,
    num_elapsed_sorted_events: usize,
    num_scheduled_musical_events: usize,
    num_scheduled_non_musical_events: usize,
    buffer_out_of_space_mode: BufferOutOfSpaceMode,
}

impl<E> EventScheduler<E> {
    /// The scheduled events that have not elapsed, in the order of the
    /// sorted list, each with its time in samples.
    pub closed spec fn pending_events(&self) -> Seq<(NodeEvent<E>, i64)> {
        let ne = self.num_elapsed_sorted_events as int;
        let sorted = self.sorted_event_buffer_indices@;
        Seq::new(
            (sorted.len() - ne) as nat,
            |i: int| (slot_event(self.scheduled_event_arena@, sorted[ne + i].0), sorted[ne + i].1),
        )
    }

    /// Whether the list of scheduled events is marked as needing to be
    /// sorted before the next block.
    pub closed spec fn needs_sorting_view(&self) -> bool {
        self.scheduled_events_need_sorting
    }

    /// Whether the list of scheduled events is marked as needing to be
    /// sorted before the next block.
    pub fn scheduled_events_need_sorting(&self) -> (r: bool)
        ensures
            r == self.needs_sorting_view(),
    {
        self.scheduled_events_need_sorting
    }

    /// Unless the list of scheduled events is marked as needing to be
    /// sorted, the pending events are in time order. Every operation keeps
    /// this, as part of the scheduler's well-formedness: adding an event
    /// earlier than the last one marks the list.
    pub proof fn law_pending_in_time_order_unless_marked(&self)
        requires
            self.wf(),
        ensures
            !self.needs_sorting_view() ==> forall|i: int, j: int|
                0 <= i <= j < self.pending_events().len() ==> (#[trigger] self.pending_events()[i]).1
                    <= (#[trigger] self.pending_events()[j]).1,
    {
        let ne = self.num_elapsed_sorted_events as int;
        let sorted = self.sorted_event_buffer_indices@;
        if !self.scheduled_events_need_sorting {
            assert forall|i: int, j: int|
                0 <= i <= j < self.pending_events().len() implies (#[trigger] self.pending_events()[i]).1
                    <= (#[trigger] self.pending_events()[j]).1 by {
                assert(sorted[ne + i].1 <= sorted[ne + j].1);
            }
        }
    }

    /// The scheduled events that elapsed in the current block, in the order
    /// of the sorted list: each with its arena slot, the event in that slot
    /// (`None` for an event whose node was gone, or that was taken), and
    /// its time.
    pub closed spec fn block_events(&self) -> Seq<(u32, Option<NodeEvent<E>>, i64)> {
        let sorted = self.sorted_event_buffer_indices@;
        Seq::new(
            self.num_elapsed_sorted_events as nat,
            |i: int| (sorted[i].0, self.scheduled_event_arena@[sorted[i].0 as int], sorted[i].1),
        )
    }

    /// What an arena slot holds.
    pub closed spec fn arena_slot(&self, slot: u32) -> Option<NodeEvent<E>> {
        self.scheduled_event_arena@[slot as int]
    }

    /// The immediate event buffer; an entry is `None` once it was taken.
    pub closed spec fn immediate_events(&self) -> Seq<Option<NodeEvent<E>>> {
        self.immediate_event_buffer@
    }

    /// The number of pending events on the musical transport, as the
    /// scheduler counts them.
    pub closed spec fn num_musical(&self) -> nat {
        self.num_scheduled_musical_events as nat
    }

    /// The number of other pending events, as the scheduler counts them.
    pub closed spec fn num_non_musical(&self) -> nat {
        self.num_scheduled_non_musical_events as nat
    }

    /// The number of free slots in the scheduled event arena.
    pub closed spec fn num_free_slots(&self) -> nat {
        self.scheduled_event_arena_free_slots@.len()
    }

    /// The number of slots of the scheduled event arena.
    pub closed spec fn arena_len(&self) -> nat {
        self.scheduled_event_arena@.len()
    }

    /// The number of immediate events the buffer is meant to hold.
    pub closed spec fn immediate_capacity(&self) -> nat {
        self.immediate_event_buffer_capacity as nat
    }

    /// What to do when a buffer runs out of space.
    pub closed spec fn mode(&self) -> BufferOutOfSpaceMode {
        self.buffer_out_of_space_mode
    }

    pub closed spec fn wf(&self) -> bool {
        let arena = self.scheduled_event_arena@;
        let sorted = self.sorted_event_buffer_indices@;
        let free = self.scheduled_event_arena_free_slots@;
        let ne = self.num_elapsed_sorted_events as int;
        &&& arena.len() <= u32::MAX
        &&& (self.buffer_out_of_space_mode == BufferOutOfSpaceMode::AllocateOnAudioThread ==> arena.len() > 0)
        &&& ne <= sorted.len()
        &&& free.len() + (sorted.len() - ne) == arena.len()
        &&& (self.buffer_out_of_space_mode != BufferOutOfSpaceMode::AllocateOnAudioThread
            ==> self.immediate_event_buffer@.len() <= self.immediate_event_buffer_capacity)
        &&& forall|i: int| 0 <= i < sorted.len() ==> (#[trigger] sorted[i].0 as int) < arena.len()
        &&& forall|i: int|
            ne <= i < sorted.len() ==> (#[trigger] arena[sorted[i].0 as int] matches Some(e) && e.time is Some)
        &&& forall|i: int, j: int| ne <= i < j < sorted.len() ==> #[trigger] sorted[i].0 != #[trigger] sorted[j].0
        &&& forall|i: int, j: int| 0 <= i < ne <= j < sorted.len() ==> #[trigger] sorted[i].0 != #[trigger] sorted[j].0
        &&& forall|i: int| 0 <= i < free.len() ==> (#[trigger] free[i] as int) < arena.len()
        &&& forall|i: int, j: int| 0 <= i < j < free.len() ==> #[trigger] free[i] != #[trigger] free[j]
        &&& forall|i: int, j: int|
            0 <= i < free.len() && ne <= j < sorted.len() ==> #[trigger] free[i] != #[trigger] sorted[j].0
        &&& (!self.scheduled_events_need_sorting ==> forall|i: int, j: int|
            ne <= i <= j < sorted.len() ==> #[trigger] sorted[i].1 <= #[trigger] sorted[j].1)
        &&& self.num_scheduled_musical_events == count_kind(self.pending_events(), true)
        &&& self.num_scheduled_non_musical_events == count_kind(self.pending_events(), false)
    }

    /// The scheduler's counts of pending events always equal the number of
    /// pending events of each kind.
    pub proof fn lemma_counts_match_pending(&self)
        requires
            self.wf(),
        ensures
            self.num_musical() == count_kind(self.pending_events(), true),
            self.num_non_musical() == count_kind(self.pending_events(), false),
    {
    }

    /// A scheduler with empty buffers: room for `immediate_event_buffer_capacity`
    /// immediate events and `scheduled_event_buffer_capacity` scheduled
    /// ones. Reallocating a full arena doubles it, so an arena of no slots
    /// cannot be used with [`BufferOutOfSpaceMode::AllocateOnAudioThread`].
    pub fn new(
        immediate_event_buffer_capacity: usize,
        scheduled_event_buffer_capacity: usize,
        buffer_out_of_space_mode: BufferOutOfSpaceMode,
    ) -> (r: Self)
        requires
            scheduled_event_buffer_capacity <= u32::MAX,
            buffer_out_of_space_mode == BufferOutOfSpaceMode::AllocateOnAudioThread
                ==> scheduled_event_buffer_capacity > 0,
        ensures
            r.wf(),
            r.pending_events() == Seq::<(NodeEvent<E>, i64)>::empty(),
            r.immediate_events() == Seq::<Option<NodeEvent<E>>>::empty(),
            forall|k: u64, d: NodeEventSchedulerData|
                d.num_immediate_events == 0 && clump_contents(d.immediate_event_clump_indices).len() == 0 ==> #[trigger] r.imm_agrees(k, d),
            r.num_musical() == 0,
            r.num_non_musical() == 0,
            r.num_free_slots() == scheduled_event_buffer_capacity,
            r.arena_len() == scheduled_event_buffer_capacity,
            r.immediate_capacity() == immediate_event_buffer_capacity,
            r.mode() == buffer_out_of_space_mode,
    {
        let mut scheduled_event_arena: Vec<Option<NodeEvent<E>>> = Vec::new();
        let mut i: usize = 0;
        while i < scheduled_event_buffer_capacity
            invariant
                i <= scheduled_event_buffer_capacity,
                scheduled_event_arena@.len() == i,
            decreases scheduled_event_buffer_capacity - i,
        {
            scheduled_event_arena.push(None);
            i = i + 1;
        }
        // The free slots, last slot first, so that slot 0 is used first.
        let mut free: Vec<u32> = Vec::with_capacity(scheduled_event_buffer_capacity);
        let mut n: usize = scheduled_event_buffer_capacity;
        while n > 0
            invariant
                n <= scheduled_event_buffer_capacity <= u32::MAX,
                free@.len() == scheduled_event_buffer_capacity - n,
                forall|j: int| 0 <= j < free@.len() ==> free@[j] == scheduled_event_buffer_capacity - 1 - j,
            decreases n,
        {
            n = n - 1;
            free.push(n as u32);
        }
        let r = EventScheduler {
            immediate_event_buffer: Vec::with_capacity(immediate_event_buffer_capacity),
            immediate_event_buffer_capacity,
            scheduled_event_arena,
            scheduled_event_arena_free_slots: free,
            sorted_event_buffer_indices: Vec::with_capacity(scheduled_event_buffer_capacity),
            scheduled_events_need_sorting: false,
            num_elapsed_sorted_events: 0,
            num_scheduled_musical_events: 0,
            num_scheduled_non_musical_events: 0,
            buffer_out_of_space_mode,
        };
        assert(r.pending_events() =~= Seq::<(NodeEvent<E>, i64)>::empty());
        proof {
            lemma_empty_buffer_agrees(r);
        }
        r
    }

    /// Drops the elapsed entries from the front of the sorted list.
    fn truncate_elapsed_events(&mut self)
        requires
            old(self).wf(),
        ensures
            final(self).wf(),
            final(self).num_elapsed_sorted_events == 0,
            final(self).pending_events() == old(self).pending_events(),
            final(self).scheduled_event_arena@ == old(self).scheduled_event_arena@,
            final(self).scheduled_event_arena_free_slots@ == old(self).scheduled_event_arena_free_slots@,
            final(self).sorted_event_buffer_indices@ == old(self).sorted_event_buffer_indices@.subrange(
                old(self).num_elapsed_sorted_events as int,
                old(self).sorted_event_buffer_indices@.len() as int,
            ),
            final(self).immediate_event_buffer@ == old(self).immediate_event_buffer@,
            final(self).immediate_event_buffer_capacity == old(self).immediate_event_buffer_capacity,
            final(self).scheduled_events_need_sorting == old(self).scheduled_events_need_sorting,
            final(self).num_scheduled_musical_events == old(self).num_scheduled_musical_events,
            final(self).num_scheduled_non_musical_events == old(self).num_scheduled_non_musical_events,
            final(self).buffer_out_of_space_mode == old(self).buffer_out_of_space_mode,
    {
        let ne = self.num_elapsed_sorted_events;
        if ne == 0 {
            proof {
                assert(self.sorted_event_buffer_indices@ =~= self.sorted_event_buffer_indices@.subrange(
                    0,
                    self.sorted_event_buffer_indices@.len() as int,
                ));
            }
            return;
        }
        let len = self.sorted_event_buffer_indices.len();
        let ghost old_sorted = self.sorted_event_buffer_indices@;
        let mut j: usize = ne;
        while j < len
            invariant
                ne <= j <= len,
                len == old_sorted.len(),
                self.sorted_event_buffer_indices@.len() == len,
                forall|k: int| 0 <= k < j - ne ==> #[trigger] self.sorted_event_buffer_indices@[k] == old_sorted[k + ne],
                forall|k: int| j <= k < len ==> #[trigger] self.sorted_event_buffer_indices@[k] == old_sorted[k],
                old_sorted == old(self).sorted_event_buffer_indices@,
                ne == old(self).num_elapsed_sorted_events,
                self.scheduled_event_arena == old(self).scheduled_event_arena,
                self.scheduled_event_arena_free_slots == old(self).scheduled_event_arena_free_slots,
                self.num_elapsed_sorted_events == old(self).num_elapsed_sorted_events,
                self.immediate_event_buffer == old(self).immediate_event_buffer,
                self.immediate_event_buffer_capacity == old(self).immediate_event_buffer_capacity,
                self.scheduled_events_need_sorting == old(self).scheduled_events_need_sorting,
                self.num_scheduled_musical_events == old(self).num_scheduled_musical_events,
                self.num_scheduled_non_musical_events == old(self).num_scheduled_non_musical_events,
                self.buffer_out_of_space_mode == old(self).buffer_out_of_space_mode,
            decreases len - j,
        {
            let e = self.sorted_event_buffer_indices[j];
            self.sorted_event_buffer_indices.set(j - ne, e);
            j = j + 1;
        }
        self.sorted_event_buffer_indices.truncate(len - ne);
        self.num_elapsed_sorted_events = 0;
        proof {
            assert(self.sorted_event_buffer_indices@ =~= old_sorted.subrange(ne as int, len as int));
            assert(self.pending_events().len() == old(self).pending_events().len());
            assert forall|i: int| 0 <= i < self.pending_events().len() implies self.pending_events()[i]
                == old(self).pending_events()[i] by {
                assert(self.sorted_event_buffer_indices@[i] == old_sorted[i + ne]);
            }
            assert(self.pending_events() =~= old(self).pending_events());
        }
    }

    /// Doubles the scheduled event arena when the mode allows it; returns
    /// whether the event at hand is to be dropped instead.
    fn extend_scheduled_event_buffer(&mut self) -> (drop_event: bool)
        requires
            old(self).wf(),
            old(self).buffer_out_of_space_mode != BufferOutOfSpaceMode::Panic,
            old(self).buffer_out_of_space_mode == BufferOutOfSpaceMode::AllocateOnAudioThread
                ==> old(self).scheduled_event_arena@.len() * 2 <= u32::MAX,
        ensures
            final(self).wf(),
            drop_event == (old(self).buffer_out_of_space_mode == BufferOutOfSpaceMode::DropEvents),
            drop_event ==> *final(self) == *old(self),
            !drop_event ==> final(self).scheduled_event_arena@ == old(self).scheduled_event_arena@ + Seq::new(
                old(self).scheduled_event_arena@.len(),
                |i: int| None::<NodeEvent<E>>,
            ),
            !drop_event ==> final(self).scheduled_event_arena_free_slots@.len()
                == old(self).scheduled_event_arena_free_slots@.len() + old(self).scheduled_event_arena@.len(),
            !drop_event ==> final(self).scheduled_event_arena_free_slots@.subrange(
                0,
                old(self).scheduled_event_arena_free_slots@.len() as int,
            ) == old(self).scheduled_event_arena_free_slots@,
            final(self).pending_events() == old(self).pending_events(),
            final(self).sorted_event_buffer_indices@ == old(self).sorted_event_buffer_indices@,
            final(self).num_elapsed_sorted_events == old(self).num_elapsed_sorted_events,
            final(self).immediate_event_buffer@ == old(self).immediate_event_buffer@,
            final(self).immediate_event_buffer_capacity == old(self).immediate_event_buffer_capacity,
            final(self).scheduled_events_need_sorting == old(self).scheduled_events_need_sorting,
            final(self).num_scheduled_musical_events == old(self).num_scheduled_musical_events,
            final(self).num_scheduled_non_musical_events == old(self).num_scheduled_non_musical_events,
            final(self).buffer_out_of_space_mode == old(self).buffer_out_of_space_mode,
    {
        match self.buffer_out_of_space_mode {
            BufferOutOfSpaceMode::DropEvents => true,
            _ => {
                let old_len = self.scheduled_event_arena.len();
                let ghost old_arena = self.scheduled_event_arena@;
                let ghost old_free = self.scheduled_event_arena_free_slots@;
                let mut i: usize = 0;
                while i < old_len
                    invariant
                        i <= old_len,
                        old_len == old_arena.len(),
                        old_len * 2 <= u32::MAX,
                        self.scheduled_event_arena@.len() == old_len + i,
                        forall|k: int| 0 <= k < old_len ==> #[trigger] self.scheduled_event_arena@[k] == old_arena[k],
                        forall|k: int| old_len <= k < old_len + i ==> #[trigger] self.scheduled_event_arena@[k] is None,
                        self.scheduled_event_arena_free_slots@ == old_free,
                        old_free == old(self).scheduled_event_arena_free_slots@,
                        old_arena == old(self).scheduled_event_arena@,
                        self.sorted_event_buffer_indices == old(self).sorted_event_buffer_indices,
                        self.num_elapsed_sorted_events == old(self).num_elapsed_sorted_events,
                        self.immediate_event_buffer == old(self).immediate_event_buffer,
                        self.immediate_event_buffer_capacity == old(self).immediate_event_buffer_capacity,
                        self.scheduled_events_need_sorting == old(self).scheduled_events_need_sorting,
                        self.num_scheduled_musical_events == old(self).num_scheduled_musical_events,
                        self.num_scheduled_non_musical_events == old(self).num_scheduled_non_musical_events,
                        self.buffer_out_of_space_mode == old(self).buffer_out_of_space_mode,
                    decreases old_len - i,
                {
                    self.scheduled_event_arena.push(None);
                    i = i + 1;
                }
                assert(self.scheduled_event_arena@ =~= old_arena + Seq::new(old_len as nat, |i: int| None::<NodeEvent<E>>));
                let mut n: usize = old_len * 2;
                while n > old_len
                    invariant
                        old_len <= n <= old_len * 2,
                        old_len * 2 <= u32::MAX,
                        self.scheduled_event_arena_free_slots@.len() == old_free.len() + (old_len * 2 - n),
                        forall|k: int| 0 <= k < old_free.len() ==> #[trigger] self.scheduled_event_arena_free_slots@[k] == old_free[k],
                        forall|k: int| old_free.len() <= k < self.scheduled_event_arena_free_slots@.len() ==>
                            #[trigger] self.scheduled_event_arena_free_slots@[k] == old_len * 2 - 1 - (k - old_free.len()),
                        self.scheduled_event_arena@ == old_arena + Seq::new(old_len as nat, |i: int| None::<NodeEvent<E>>),
                        old_free == old(self).scheduled_event_arena_free_slots@,
                        old_arena == old(self).scheduled_event_arena@,
                        self.sorted_event_buffer_indices == old(self).sorted_event_buffer_indices,
                        self.num_elapsed_sorted_events == old(self).num_elapsed_sorted_events,
                        self.immediate_event_buffer == old(self).immediate_event_buffer,
                        self.immediate_event_buffer_capacity == old(self).immediate_event_buffer_capacity,
                        self.scheduled_events_need_sorting == old(self).scheduled_events_need_sorting,
                        self.num_scheduled_musical_events == old(self).num_scheduled_musical_events,
                        self.num_scheduled_non_musical_events == old(self).num_scheduled_non_musical_events,
                        self.buffer_out_of_space_mode == old(self).buffer_out_of_space_mode,
                    decreases n,
                {
                    n = n - 1;
                    self.scheduled_event_arena_free_slots.push(n as u32);
                }
                proof {
                    assert(self.scheduled_event_arena_free_slots@.subrange(0, old_free.len() as int) =~= old_free);
                    assert(self.pending_events() =~= old(self).pending_events());
                }
                false
            },
        }
    }

    /// Adds one event for a node. A scheduled event takes a free arena slot
    /// (the arena is doubled first when none is free and the mode allows
    /// it) and joins the pending events at its time in samples; an immediate
    /// event is appended to the immediate event buffer, and a position where
    /// a new clump of the node's events starts is recorded while fewer than
    /// 8 are. With [`BufferOutOfSpaceMode::DropEvents`] an event that finds
    /// its buffer full is dropped; with [`BufferOutOfSpaceMode::Panic`] the
    /// buffer must have room.
    fn push_event(&mut self, event: NodeEvent<E>, node_data: &mut NodeEventSchedulerData)
        requires
            old(self).wf(),
            old(self).num_elapsed_sorted_events == 0,
            old(node_data).num_scheduled_musical_events < usize::MAX,
            old(node_data).num_scheduled_non_musical_events < usize::MAX,
            old(node_data).num_immediate_events < usize::MAX,
            event.time is Some && old(self).mode() == BufferOutOfSpaceMode::Panic ==> old(self).num_free_slots() > 0,
            event.time is Some && old(self).mode() == BufferOutOfSpaceMode::AllocateOnAudioThread
                && old(self).num_free_slots() == 0 ==> old(self).arena_len() * 2 <= u32::MAX,
            event.time is None && old(self).mode() == BufferOutOfSpaceMode::Panic
                ==> old(self).immediate_events().len() < old(self).immediate_capacity(),
            event.time is None ==> old(self).immediate_events().len() < u32::MAX,
            event.time is None && old(self).immediate_events().len() > 0 ==> old(self).immediate_events().last() is Some,
        ensures
            final(self).wf(),
            final(self).num_elapsed_sorted_events == 0,
            final(self).mode() == old(self).mode(),
            final(self).immediate_capacity() == old(self).immediate_capacity(),
            final(node_data).num_scheduled_events_this_block == old(node_data).num_scheduled_events_this_block,
            final(node_data).first_sorted_event_index == old(node_data).first_sorted_event_index,
            event.time is None ==> final(self).num_free_slots() == old(self).num_free_slots(),
            event.time is Some && old(self).num_free_slots() > 0 ==> final(self).num_free_slots()
                == old(self).num_free_slots() - 1,
            event.time is Some && old(self).mode() == BufferOutOfSpaceMode::DropEvents && old(self).num_free_slots() == 0
                ==> final(self).num_free_slots() == 0,
            event.time matches Some(t) ==> {
                let dropped = old(self).mode() == BufferOutOfSpaceMode::DropEvents && old(self).num_free_slots() == 0;
                &&& final(self).pending_events() == (if dropped {
                    old(self).pending_events()
                } else {
                    old(self).pending_events().push((event, t.samples))
                })
                &&& final(self).immediate_events() == old(self).immediate_events()
                &&& final(node_data).num_immediate_events == old(node_data).num_immediate_events
                &&& clump_contents(final(node_data).immediate_event_clump_indices) == clump_contents(
                    old(node_data).immediate_event_clump_indices,
                )
                &&& final(node_data).num_scheduled_musical_events == old(node_data).num_scheduled_musical_events
                    + (if !dropped && t.kind == EventTimeKind::Musical { 1int } else { 0int })
                &&& final(node_data).num_scheduled_non_musical_events == old(node_data).num_scheduled_non_musical_events
                    + (if !dropped && t.kind != EventTimeKind::Musical { 1int } else { 0int })
            },
            event.time is None ==> {
                let imm = old(self).immediate_events();
                let dropped = old(self).mode() == BufferOutOfSpaceMode::DropEvents && imm.len() == old(self).immediate_capacity();
                let new_clump = imm.len() == 0 || imm.last()->0.node_id != event.node_id;
                let clumps = clump_contents(old(node_data).immediate_event_clump_indices);
                &&& final(self).pending_events() == old(self).pending_events()
                &&& final(self).immediate_events() == (if dropped { imm } else { imm.push(Some(event)) })
                &&& final(node_data).num_immediate_events == old(node_data).num_immediate_events + (if dropped { 0int } else { 1int })
                &&& clump_contents(final(node_data).immediate_event_clump_indices) == (if !dropped && new_clump && clumps.len() < 8 {
                    clumps.push(imm.len() as u32)
                } else {
                    clumps
                })
                &&& final(node_data).num_scheduled_musical_events == old(node_data).num_scheduled_musical_events
                &&& final(node_data).num_scheduled_non_musical_events == old(node_data).num_scheduled_non_musical_events
            },
            old(self).imm_agrees(event.node_id.0, *old(node_data)) ==> final(self).imm_agrees(event.node_id.0, *final(node_data)),
            forall|k2: u64, d: NodeEventSchedulerData|
                #![trigger old(self).imm_agrees(k2, d)]
                #![trigger final(self).imm_agrees(k2, d)]
                k2 != event.node_id.0 && old(self).imm_agrees(k2, d) ==> final(self).imm_agrees(k2, d),
    {
        match event.time {
            Some(t) => {
                let ghost mut pre = *self;
                let slot = match self.scheduled_event_arena_free_slots.pop() {
                    Some(slot) => slot,
                    None => {
                        let drop_event = self.extend_scheduled_event_buffer();
                        if drop_event {
                            return;
                        }
                        proof {
                            pre = *self;
                        }
                        match self.scheduled_event_arena_free_slots.pop() {
                            Some(slot) => slot,
                            None => {
                                proof {
                                    assert(false);
                                }
                                return;
                            },
                        }
                    },
                };
                let ghost mid = *self;
                proof {
                    lemma_count_bound(mid.pending_events(), true);
                    lemma_count_bound(mid.pending_events(), false);
                }
                let time_samples = t.samples;
                let is_musical = match t.kind {
                    EventTimeKind::Musical => true,
                    _ => false,
                };
                if is_musical {
                    self.num_scheduled_musical_events = self.num_scheduled_musical_events + 1;
                    node_data.num_scheduled_musical_events = node_data.num_scheduled_musical_events + 1;
                } else {
                    self.num_scheduled_non_musical_events = self.num_scheduled_non_musical_events + 1;
                    node_data.num_scheduled_non_musical_events = node_data.num_scheduled_non_musical_events + 1;
                }
                let len = self.sorted_event_buffer_indices.len();
                if !self.scheduled_events_need_sorting && len > 0 {
                    let last = self.sorted_event_buffer_indices[len - 1];
                    if time_samples < last.1 {
                        self.scheduled_events_need_sorting = true;
                    }
                }
                let ghost ev = event;
                self.scheduled_event_arena.set(slot as usize, Some(event));
                self.sorted_event_buffer_indices.push((slot, time_samples));
                proof {
                    let ne = self.num_elapsed_sorted_events as int;
                    let sorted = self.sorted_event_buffer_indices@;
                    let free = self.scheduled_event_arena_free_slots@;
                    let old_pending = mid.pending_events();
                    let pf = pre.scheduled_event_arena_free_slots@;
                    assert(pre.wf());
                    assert(pf =~= free.push(slot));
                    assert(pre.sorted_event_buffer_indices@ == mid.sorted_event_buffer_indices@);
                    assert forall|i: int| ne <= i < len implies #[trigger] sorted[i].0 != slot by {
                        assert(pf[free.len() as int] == slot);
                        assert(pre.sorted_event_buffer_indices@[i] == sorted[i]);
                    }
                    assert forall|i: int| 0 <= i < free.len() implies #[trigger] free[i] != slot by {
                        assert(pf[i] == free[i]);
                        assert(pf[free.len() as int] == slot);
                    }
                    assert(self.pending_events() =~= old_pending.push((ev, time_samples)));
                    lemma_count_push(old_pending, (ev, time_samples), true);
                    lemma_count_push(old_pending, (ev, time_samples), false);
                    assert(old_pending == old(self).pending_events());
                }
            },
            None => {
                let len = self.immediate_event_buffer.len();
                if len == self.immediate_event_buffer_capacity {
                    match self.buffer_out_of_space_mode {
                        BufferOutOfSpaceMode::DropEvents => {
                            return;
                        },
                        _ => {},
                    }
                }
                let is_new_clump = if len == 0 {
                    true
                } else {
                    match &self.immediate_event_buffer[len - 1] {
                        Some(prev) => prev.node_id.0 != event.node_id.0,
                        None => true,
                    }
                };
                let ghost ev = event;
                let ghost buf0 = self.immediate_event_buffer@;
                if is_new_clump {
                    let _ = clumps_try_push(&mut node_data.immediate_event_clump_indices, len as u32);
                }
                node_data.num_immediate_events = node_data.num_immediate_events + 1;
                self.immediate_event_buffer.push(Some(event));
                proof {
                    let buf1 = self.immediate_event_buffer@;
                    assert forall|k2: u64, d: NodeEventSchedulerData|
                        k2 != ev.node_id.0 && old(self).imm_agrees(k2, d) implies self.imm_agrees(k2, d) by {
                        let m = imm_mask(buf0, k2);
                        assert(imm_mask(buf1, k2) =~= m.push(false));
                        lemma_push_mark(m, false);
                    }
                    let k = ev.node_id.0;
                    if old(self).imm_agrees(k, *old(node_data)) {
                        let m = imm_mask(buf0, k);
                        assert(imm_mask(buf1, k) =~= m.push(true));
                        lemma_push_mark(m, true);
                        if len > 0 {
                            assert(m[len - 1] == !is_new_clump);
                        }
                        let st = run_starts_upto(m, m.len() as int);
                        let st1 = run_starts_upto(m.push(true), (m.len() + 1) as int);
                        let c0 = clump_contents(old(node_data).immediate_event_clump_indices);
                        let c1 = clump_contents(node_data.immediate_event_clump_indices);
                        assert forall|j: int| 0 <= j < c1.len() implies c1[j] as int == #[trigger] st1[j] by {
                            if j < c0.len() {
                                assert(c1[j] == c0[j]);
                                assert(st1[j] == st[j]);
                            }
                        }
                    }
                }
            },
        }
    }
    /// Adds a group of events in order (each as `push_event` adds one), after
    /// dropping the elapsed entries of the sorted list. Events for nodes
    /// that are not in `nodes` are dropped. The group is left empty.
    pub fn push_event_group(&mut self, event_group: &mut Vec<NodeEvent<E>>, nodes: &mut Arena<NodeEventSchedulerData>)
        requires
            old(self).wf(),
            ({
                let g = old(event_group)@;
                let present = sched_arena_contents(*old(nodes)).dom();
                let imm = old(self).immediate_events();
                &&& old(self).mode() == BufferOutOfSpaceMode::Panic ==> scheduled_for_present(g, present).len()
                    <= old(self).num_free_slots()
                &&& old(self).mode() == BufferOutOfSpaceMode::Panic ==> imm.len() + immediate_for_present(g, present).len()
                    <= old(self).immediate_capacity()
                &&& old(self).mode() == BufferOutOfSpaceMode::AllocateOnAudioThread ==> (old(self).pending_events().len()
                    + g.len()) * 2 <= u32::MAX
                &&& imm.len() + g.len() < u32::MAX
                &&& imm.len() > 0 ==> imm.last() is Some
                &&& forall|k: u64| #[trigger] present.contains(k) ==> {
                    let d = sched_arena_contents(*old(nodes))[k];
                    &&& d.num_scheduled_musical_events + g.len() < usize::MAX
                    &&& d.num_scheduled_non_musical_events + g.len() < usize::MAX
                    &&& d.num_immediate_events + g.len() < usize::MAX
                }
            }),
        ensures
            final(self).wf(),
            final(event_group)@.len() == 0,
            final(self).mode() == old(self).mode(),
            final(self).immediate_capacity() == old(self).immediate_capacity(),
            old(self).counts_agree(sched_arena_contents(*old(nodes))) ==> final(self).counts_agree(
                sched_arena_contents(*final(nodes)),
            ),
            old(self).pending_nodes_in(sched_arena_contents(*old(nodes)).dom()) ==> final(self).pending_nodes_in(
                sched_arena_contents(*final(nodes)).dom(),
            ),
            old(self).imm_all_agree(sched_arena_contents(*old(nodes))) ==> final(self).imm_all_agree(
                sched_arena_contents(*final(nodes)),
            ),
            ({
                let g = old(event_group)@;
                let present = sched_arena_contents(*old(nodes)).dom();
                let drop = old(self).mode() == BufferOutOfSpaceMode::DropEvents;
                let sched = accepted(scheduled_for_present(g, present), old(self).num_free_slots() as int, drop);
                let imm = accepted(
                    immediate_for_present(g, present),
                    old(self).immediate_capacity() - old(self).immediate_events().len(),
                    drop,
                );
                &&& final(self).pending_events() == old(self).pending_events() + sched
                &&& final(self).immediate_events() == old(self).immediate_events() + imm
                &&& sched_arena_contents(*final(nodes)).dom() == present
                &&& forall|k: u64| #[trigger] present.contains(k) ==> {
                    let d0 = sched_arena_contents(*old(nodes))[k];
                    let d1 = sched_arena_contents(*final(nodes))[k];
                    &&& d1.num_scheduled_musical_events == d0.num_scheduled_musical_events + count_node_kind(sched, k, true)
                    &&& d1.num_scheduled_non_musical_events == d0.num_scheduled_non_musical_events + count_node_kind(
                        sched,
                        k,
                        false,
                    )
                    &&& d1.num_immediate_events == d0.num_immediate_events + count_node_immediate(imm, k)
                    &&& d1.num_scheduled_events_this_block == d0.num_scheduled_events_this_block
                    &&& d1.first_sorted_event_index == d0.first_sorted_event_index
                }
            }),
    {
        let ghost agree0 = self.imm_all_agree(sched_arena_contents(*nodes));
        self.truncate_elapsed_events();
        let ghost g0 = event_group@;
        let ghost n = g0.len() as int;
        let ghost present = sched_arena_contents(*nodes).dom();
        let ghost nodes0 = sched_arena_contents(*nodes);
        let ghost drop = self.mode() == BufferOutOfSpaceMode::DropEvents;
        let ghost free0 = self.num_free_slots() as int;
        let ghost room0 = self.immediate_capacity() - self.immediate_events().len();
        let ghost p0 = self.pending_events();
        let ghost imm0 = self.immediate_events();
        let ghost mut i: int = 0;
        proof {
            assert(g0.take(0) =~= Seq::<NodeEvent<E>>::empty());
            assert(g0.subrange(0, n) =~= g0);
            lemma_for_present_split(g0.take(0), g0.subrange(0, n), present);
            assert(g0.take(0) + g0.subrange(0, n) =~= g0);
            assert(p0 + accepted(scheduled_for_present(g0.take(0), present), free0, drop) =~= p0);
            assert(imm0 + accepted(immediate_for_present(g0.take(0), present), room0, drop) =~= imm0);
        }
        while event_group.len() > 0
            invariant
                self.wf(),
                self.mode() == old(self).mode(),
                self.immediate_capacity() == old(self).immediate_capacity(),
                drop == (self.mode() == BufferOutOfSpaceMode::DropEvents),
                self.num_elapsed_sorted_events == 0,
                g0 == old(event_group)@,
                n == g0.len(),
                present == sched_arena_contents(*old(nodes)).dom(),
                nodes0 == sched_arena_contents(*old(nodes)),
                free0 == old(self).num_free_slots(),
                room0 == old(self).immediate_capacity() - old(self).immediate_events().len(),
                self.mode() != BufferOutOfSpaceMode::AllocateOnAudioThread ==> room0 >= 0,
                p0 == old(self).pending_events(),
                imm0 == old(self).immediate_events(),
                0 <= i <= n,
                event_group@ == g0.subrange(i, n),
                scheduled_for_present(g0.take(i), present) + scheduled_for_present(g0.subrange(i, n), present)
                    == scheduled_for_present(g0, present),
                immediate_for_present(g0.take(i), present) + immediate_for_present(g0.subrange(i, n), present)
                    == immediate_for_present(g0, present),
                scheduled_for_present(g0.take(i), present).len() <= i,
                immediate_for_present(g0.take(i), present).len() <= i,
                self.pending_events() == p0 + accepted(scheduled_for_present(g0.take(i), present), free0, drop),
                self.immediate_events() == imm0 + accepted(immediate_for_present(g0.take(i), present), room0, drop),
                self.mode() == BufferOutOfSpaceMode::Panic ==> self.num_free_slots()
                    + scheduled_for_present(g0.take(i), present).len() == free0,
                self.mode() == BufferOutOfSpaceMode::Panic ==> scheduled_for_present(g0, present).len() <= free0,
                self.mode() == BufferOutOfSpaceMode::Panic ==> imm0.len() + immediate_for_present(g0, present).len()
                    <= self.immediate_capacity(),
                drop ==> self.num_free_slots() == free0 - accepted(scheduled_for_present(g0.take(i), present), free0, drop).len(),
                self.mode() == BufferOutOfSpaceMode::AllocateOnAudioThread ==> (p0.len() + n) * 2 <= u32::MAX,
                imm0.len() + n < u32::MAX,
                self.immediate_events().len() > 0 ==> self.immediate_events().last() is Some,
                sched_arena_contents(*nodes).dom() == present,
                forall|k: u64| #[trigger] present.contains(k) ==> {
                    let d = nodes0[k];
                    &&& d.num_scheduled_musical_events + n < usize::MAX
                    &&& d.num_scheduled_non_musical_events + n < usize::MAX
                    &&& d.num_immediate_events + n < usize::MAX
                },
                forall|k: u64| #[trigger] present.contains(k) ==> {
                    let d0 = nodes0[k];
                    let d1 = sched_arena_contents(*nodes)[k];
                    let sched = accepted(scheduled_for_present(g0.take(i), present), free0, drop);
                    let imm = accepted(immediate_for_present(g0.take(i), present), room0, drop);
                    &&& d1.num_scheduled_musical_events == d0.num_scheduled_musical_events + count_node_kind(sched, k, true)
                    &&& d1.num_scheduled_non_musical_events == d0.num_scheduled_non_musical_events + count_node_kind(sched, k, false)
                    &&& d1.num_immediate_events == d0.num_immediate_events + count_node_immediate(imm, k)
                    &&& d1.num_scheduled_events_this_block == d0.num_scheduled_events_this_block
                    &&& d1.first_sorted_event_index == d0.first_sorted_event_index
                },
                agree0 == old(self).imm_all_agree(nodes0),
                agree0 ==> self.imm_all_agree(sched_arena_contents(*nodes)),
            decreases event_group@.len(),
        {
            let ghost pre = *self;
            let ghost pre_nodes = sched_arena_contents(*nodes);
            let ghost si = scheduled_for_present(g0.take(i), present);
            let ghost ii = immediate_for_present(g0.take(i), present);
            let event = event_group.remove(0);
            let ghost ev = event;
            proof {
                assert(ev == g0[i]);
                assert(g0.take(i + 1) =~= g0.take(i).push(g0[i]));
                assert(g0.take(i + 1).drop_last() =~= g0.take(i));
                assert(event_group@ =~= g0.subrange(i + 1, n));
                assert(g0.subrange(i, n) =~= seq![g0[i]] + g0.subrange(i + 1, n));
                lemma_for_present_split(seq![g0[i]], g0.subrange(i + 1, n), present);
                assert(seq![g0[i]].drop_last() =~= Seq::<NodeEvent<E>>::empty());
                assert(g0.take(i + 1) =~= g0.take(i) + seq![g0[i]]);
                lemma_for_present_split(g0.take(i), seq![g0[i]], present);
                let si1 = scheduled_for_present(g0.take(i + 1), present);
                let ii1 = immediate_for_present(g0.take(i + 1), present);
                assert(si1 + scheduled_for_present(g0.subrange(i + 1, n), present) =~= scheduled_for_present(g0, present));
                assert(ii1 + immediate_for_present(g0.subrange(i + 1, n), present) =~= immediate_for_present(g0, present));
            }
            let k = event.node_id.0;
            if sched_arena_contains(nodes, k) {
                let mut data = sched_arena_replace(nodes, k, NodeEventSchedulerData::new());
                let ghost d_before = data;
                proof {
                    assert(present.contains(k));
                    lemma_count_node_bound(accepted(si, free0, drop), k, true);
                    lemma_count_node_bound(accepted(si, free0, drop), k, false);
                    lemma_count_immediate_bound(accepted(ii, room0, drop), k);
                    if pre.mode() == BufferOutOfSpaceMode::Panic && ev.time is Some {
                        assert(scheduled_for_present(g0.subrange(i, n), present).len() >= 1);
                    }
                    if pre.mode() == BufferOutOfSpaceMode::Panic && ev.time is None {
                        assert(immediate_for_present(g0.subrange(i, n), present).len() >= 1);
                        assert(accepted(ii, room0, drop) == ii);
                    }
                    if drop && ev.time is None {
                        if ii.len() > room0 {
                            assert(accepted(ii, room0, drop).len() == room0);
                        }
                    }
                }
                self.push_event(event, &mut data);
                let _ = sched_arena_replace(nodes, k, data);
                proof {
                    if agree0 {
                        assert(pre.imm_agrees(k, d_before));
                        assert forall|k2: u64| #[trigger] sched_arena_contents(*nodes).contains_key(k2) implies self.imm_agrees(
                            k2,
                            sched_arena_contents(*nodes)[k2],
                        ) by {
                            if k2 != k {
                                assert(sched_arena_contents(*nodes)[k2] == pre_nodes[k2]);
                                assert(pre.imm_agrees(k2, pre_nodes[k2]));
                            }
                        }
                    }
                }
                proof {
                    let si1 = scheduled_for_present(g0.take(i + 1), present);
                    let ii1 = immediate_for_present(g0.take(i + 1), present);
                    let a0 = accepted(si, free0, drop);
                    let a1 = accepted(si1, free0, drop);
                    let b0 = accepted(ii, room0, drop);
                    let b1 = accepted(ii1, room0, drop);
                    match ev.time {
                        Some(t) => {
                            assert(si1 == si.push((ev, t.samples)));
                            assert(ii1 == ii);
                            let dropped = pre.mode() == BufferOutOfSpaceMode::DropEvents && pre.num_free_slots() == 0;
                            if dropped {
                                assert(a1 =~= a0);
                            } else {
                                assert(a1 =~= a0.push((ev, t.samples)));
                                assert(self.pending_events() =~= p0 + a1);
                            }
                            assert forall|k2: u64| #[trigger] present.contains(k2) implies {
                                let d0 = nodes0[k2];
                                let d1 = sched_arena_contents(*nodes)[k2];
                                &&& d1.num_scheduled_musical_events == d0.num_scheduled_musical_events + count_node_kind(a1, k2, true)
                                &&& d1.num_scheduled_non_musical_events == d0.num_scheduled_non_musical_events + count_node_kind(a1, k2, false)
                                &&& d1.num_immediate_events == d0.num_immediate_events + count_node_immediate(b1, k2)
                                &&& d1.num_scheduled_events_this_block == d0.num_scheduled_events_this_block
                                &&& d1.first_sorted_event_index == d0.first_sorted_event_index
                            } by {
                                if !dropped {
                                    lemma_count_node_push(a0, (ev, t.samples), k2, true);
                                    lemma_count_node_push(a0, (ev, t.samples), k2, false);
                                }
                            }
                        },
                        None => {
                            assert(si1 == si);
                            assert(ii1 == ii.push(Some(ev)));
                            let dropped = pre.mode() == BufferOutOfSpaceMode::DropEvents
                                && pre.immediate_events().len() == pre.immediate_capacity();
                            if dropped {
                                assert(b1 =~= b0);
                            } else {
                                assert(b1 =~= b0.push(Some(ev)));
                                assert(self.immediate_events() =~= imm0 + b1);
                            }
                            assert forall|k2: u64| #[trigger] present.contains(k2) implies {
                                let d0 = nodes0[k2];
                                let d1 = sched_arena_contents(*nodes)[k2];
                                &&& d1.num_scheduled_musical_events == d0.num_scheduled_musical_events + count_node_kind(a1, k2, true)
                                &&& d1.num_scheduled_non_musical_events == d0.num_scheduled_non_musical_events + count_node_kind(a1, k2, false)
                                &&& d1.num_immediate_events == d0.num_immediate_events + count_node_immediate(b1, k2)
                                &&& d1.num_scheduled_events_this_block == d0.num_scheduled_events_this_block
                                &&& d1.first_sorted_event_index == d0.first_sorted_event_index
                            } by {
                                if !dropped {
                                    lemma_count_immediate_push(b0, Some(ev), k2);
                                }
                            }
                        },
                    }
                }
            } else {
                proof {
                    let si1 = scheduled_for_present(g0.take(i + 1), present);
                    let ii1 = immediate_for_present(g0.take(i + 1), present);
                    assert(si1 == si);
                    assert(ii1 == ii);
                }
            }
            proof {
                i = i + 1;
            }
        }
        proof {
            assert(g0.take(n) =~= g0);
            let sched = accepted(scheduled_for_present(g0, present), free0, drop);
            if old(self).counts_agree(nodes0) {
                assert forall|k: u64| #[trigger] sched_arena_contents(*nodes).contains_key(k) implies {
                    let d = sched_arena_contents(*nodes)[k];
                    &&& d.num_scheduled_events_this_block == 0
                    &&& d.num_scheduled_musical_events == count_node_kind(self.pending_events(), k, true)
                    &&& d.num_scheduled_non_musical_events == count_node_kind(self.pending_events(), k, false)
                } by {
                    assert(present.contains(k));
                    assert(nodes0.contains_key(k));
                    lemma_count_node_append(p0, sched, k, true);
                    lemma_count_node_append(p0, sched, k, false);
                }
            }
            if old(self).pending_nodes_in(present) {
                lemma_for_present_nodes(g0, present);
                assert forall|i: int| 0 <= i < self.pending_events().len() implies #[trigger] present.contains(
                    self.pending_events()[i].0.node_id.0,
                ) by {
                    if i >= p0.len() {
                        assert(self.pending_events()[i] == sched[i - p0.len()]);
                        assert(sched[i - p0.len()] == scheduled_for_present(g0, present)[i - p0.len()]);
                    } else {
                        assert(self.pending_events()[i] == p0[i]);
                    }
                }
            }
        }
    }
    /// Whether the node counts of `nodes` agree with the pending events:
    /// each node's counts of musical and other scheduled events are the
    /// numbers of its pending events of each kind, and none of its events is
    /// waiting to be handed to it.
    pub open spec fn counts_agree(&self, nodes: Map<u64, NodeEventSchedulerData>) -> bool {
        forall|k: u64| #[trigger] nodes.contains_key(k) ==> {
            &&& nodes[k].num_scheduled_events_this_block == 0
            &&& nodes[k].num_scheduled_musical_events == count_node_kind(self.pending_events(), k, true)
            &&& nodes[k].num_scheduled_non_musical_events == count_node_kind(self.pending_events(), k, false)
        }
    }

    /// Whether every pending event is for a node of `present`.
    pub open spec fn pending_nodes_in(&self, present: Set<u64>) -> bool {
        forall|i: int| 0 <= i < self.pending_events().len() ==> #[trigger] present.contains(self.pending_events()[i].0.node_id.0)
    }

    fn retain_pending(&mut self, rule: RetainRule, nodes: &mut Arena<NodeEventSchedulerData>)
        requires
            old(self).wf(),
            old(self).num_elapsed_sorted_events == 0,
            rule is Clear ==> old(self).counts_agree(sched_arena_contents(*old(nodes))),
            rule matches RetainRule::Clear(None, _) ==> old(self).pending_nodes_in(sched_arena_contents(*old(nodes)).dom()),
            rule matches RetainRule::Clear(Some(n), _) ==> sched_arena_contents(*old(nodes)).contains_key(n.0),
        ensures
            final(self).wf(),
            final(self).num_elapsed_sorted_events == 0,
            final(self).pending_events() == old(self).pending_events().filter(
                |p: (NodeEvent<E>, i64)| rule_keeps(rule, sched_arena_contents(*old(nodes)).dom(), p.0),
            ),
            final(self).immediate_event_buffer@ == old(self).immediate_event_buffer@,
            final(self).immediate_event_buffer_capacity == old(self).immediate_event_buffer_capacity,
            final(self).buffer_out_of_space_mode == old(self).buffer_out_of_space_mode,
            final(self).scheduled_events_need_sorting == old(self).scheduled_events_need_sorting,
            sched_arena_contents(*final(nodes)).dom() == sched_arena_contents(*old(nodes)).dom(),
            rule is KeepPresent ==> *final(nodes) == *old(nodes),
            rule is Clear ==> final(self).counts_agree(sched_arena_contents(*final(nodes))),
            forall|k: u64| #[trigger] sched_arena_contents(*old(nodes)).contains_key(k) ==> {
                let d0 = sched_arena_contents(*old(nodes))[k];
                let d1 = sched_arena_contents(*final(nodes))[k];
                &&& d1.num_immediate_events == d0.num_immediate_events
                &&& d1.immediate_event_clump_indices == d0.immediate_event_clump_indices
                &&& d1.first_sorted_event_index == d0.first_sorted_event_index
                &&& d1.num_scheduled_events_this_block == d0.num_scheduled_events_this_block
            },
    {
        let ghost present = sched_arena_contents(*nodes).dom();
        let ghost nodes0 = sched_arena_contents(*nodes);
        let ghost pred = |p: (NodeEvent<E>, i64)| rule_keeps(rule, present, p.0);
        let ghost old_sorted = self.sorted_event_buffer_indices@;
        let ghost old_arena = self.scheduled_event_arena@;
        let ghost old_free = self.scheduled_event_arena_free_slots@;
        let ghost old_pending = self.pending_events();
        let len = self.sorted_event_buffer_indices.len();
        let mut r: usize = 0;
        let mut w: usize = 0;
        let ghost mut kept_idx: Seq<int> = Seq::empty();
        let ghost mut removed_idx: Seq<int> = Seq::empty();
        let ghost mut kept_e: Seq<(NodeEvent<E>, i64)> = Seq::empty();
        proof {
            assert(old_pending.take(0) =~= Seq::<(NodeEvent<E>, i64)>::empty());
            assert(old_pending.subrange(0, len as int) =~= old_pending);
            if rule is Clear {
                assert forall|k: u64| #[trigger] present.contains(k) implies nodes0[k].num_scheduled_musical_events
                    == count_node_kind(kept_e, k, true) + count_node_kind(old_pending.subrange(0, len as int), k, true)
                    && nodes0[k].num_scheduled_non_musical_events == count_node_kind(kept_e, k, false)
                    + count_node_kind(old_pending.subrange(0, len as int), k, false) by {
                    assert(nodes0.contains_key(k));
                }
            }
        }
        while r < len
            invariant
                0 <= w <= r <= len,
                len == old_sorted.len(),
                old_sorted == old(self).sorted_event_buffer_indices@,
                old_arena == old(self).scheduled_event_arena@,
                old_free == old(self).scheduled_event_arena_free_slots@,
                old_pending == old(self).pending_events(),
                old_pending.len() == len,
                old(self).wf(),
                old(self).num_elapsed_sorted_events == 0,
                present == sched_arena_contents(*old(nodes)).dom(),
                nodes0 == sched_arena_contents(*old(nodes)),
                pred == (|p: (NodeEvent<E>, i64)| rule_keeps(rule, present, p.0)),
                rule is Clear ==> old(self).counts_agree(nodes0),
                rule matches RetainRule::Clear(None, _) ==> old(self).pending_nodes_in(present),
                rule matches RetainRule::Clear(Some(n), _) ==> present.contains(n.0),
                self.num_elapsed_sorted_events == 0,
                self.immediate_event_buffer == old(self).immediate_event_buffer,
                self.immediate_event_buffer_capacity == old(self).immediate_event_buffer_capacity,
                self.buffer_out_of_space_mode == old(self).buffer_out_of_space_mode,
                self.scheduled_events_need_sorting == old(self).scheduled_events_need_sorting,
                self.sorted_event_buffer_indices@.len() == len,
                self.scheduled_event_arena@.len() == old_arena.len(),
                forall|i: int| r <= i < len ==> #[trigger] self.sorted_event_buffer_indices@[i] == old_sorted[i],
                forall|i: int| r <= i < len ==> #[trigger] self.scheduled_event_arena@[old_sorted[i].0 as int] == old_arena[old_sorted[i].0 as int],
                kept_idx.len() == w,
                forall|j: int| 0 <= j < w ==> 0 <= #[trigger] kept_idx[j] < r,
                forall|j1: int, j2: int| 0 <= j1 < j2 < w ==> #[trigger] kept_idx[j1] < #[trigger] kept_idx[j2],
                forall|j: int| 0 <= j < w ==> #[trigger] self.sorted_event_buffer_indices@[j] == old_sorted[kept_idx[j]],
                forall|j: int| 0 <= j < w ==> #[trigger] self.scheduled_event_arena@[old_sorted[kept_idx[j]].0 as int]
                    == old_arena[old_sorted[kept_idx[j]].0 as int],
                forall|j: int| 0 <= j < w ==> #[trigger] kept_e[j] == old_pending[kept_idx[j]],
                kept_e.len() == w,
                kept_e == old_pending.take(r as int).filter(pred),
                removed_idx.len() + w == r,
                forall|m: int| 0 <= m < removed_idx.len() ==> 0 <= #[trigger] removed_idx[m] < r,
                forall|m1: int, m2: int| 0 <= m1 < m2 < removed_idx.len() ==> #[trigger] removed_idx[m1] < #[trigger] removed_idx[m2],
                forall|m: int, j: int| 0 <= m < removed_idx.len() && 0 <= j < w ==> #[trigger] removed_idx[m] != #[trigger] kept_idx[j],
                self.scheduled_event_arena_free_slots@.len() == old_free.len() + removed_idx.len(),
                forall|i: int| 0 <= i < old_free.len() ==> #[trigger] self.scheduled_event_arena_free_slots@[i] == old_free[i],
                forall|m: int| 0 <= m < removed_idx.len() ==> #[trigger] self.scheduled_event_arena_free_slots@[old_free.len() + m]
                    == old_sorted[removed_idx[m]].0,
                self.num_scheduled_musical_events == count_kind(kept_e, true) + count_kind(old_pending.subrange(r as int, len as int), true),
                self.num_scheduled_non_musical_events == count_kind(kept_e, false) + count_kind(old_pending.subrange(r as int, len as int), false),
                sched_arena_contents(*nodes).dom() == present,
                rule is KeepPresent ==> *nodes == *old(nodes),
                rule is Clear ==> forall|k: u64| #[trigger] present.contains(k) ==> {
                    let d = sched_arena_contents(*nodes)[k];
                    &&& d.num_scheduled_musical_events == count_node_kind(kept_e, k, true)
                        + count_node_kind(old_pending.subrange(r as int, len as int), k, true)
                    &&& d.num_scheduled_non_musical_events == count_node_kind(kept_e, k, false)
                        + count_node_kind(old_pending.subrange(r as int, len as int), k, false)
                },
                forall|k: u64| #[trigger] present.contains(k) ==> {
                    let d0 = nodes0[k];
                    let d1 = sched_arena_contents(*nodes)[k];
                    &&& d1.num_immediate_events == d0.num_immediate_events
                    &&& d1.immediate_event_clump_indices == d0.immediate_event_clump_indices
                    &&& d1.first_sorted_event_index == d0.first_sorted_event_index
                    &&& d1.num_scheduled_events_this_block == d0.num_scheduled_events_this_block
                },
            decreases len - r,
        {
            let entry = self.sorted_event_buffer_indices[r];
            let slot = entry.0;
            let ghost x = old_pending[r as int];
            proof {
                assert(old(self).wf());
                assert(old_pending[r as int] == (slot_event(old_arena, old_sorted[r as int].0), old_sorted[r as int].1));
                assert(old_pending.subrange(r as int, len as int) =~= seq![x] + old_pending.subrange(r + 1, len as int));
                lemma_count_append(seq![x], old_pending.subrange(r + 1, len as int), true);
                lemma_count_append(seq![x], old_pending.subrange(r + 1, len as int), false);
                lemma_count_push(Seq::<(NodeEvent<E>, i64)>::empty(), x, true);
                lemma_count_push(Seq::<(NodeEvent<E>, i64)>::empty(), x, false);
                assert(seq![x] =~= Seq::<(NodeEvent<E>, i64)>::empty().push(x));
                assert(old_pending.take(r + 1) =~= old_pending.take(r as int).push(x));
                assert(old_pending.take(r as int).push(x).filter(pred) == (if pred(x) {
                    old_pending.take(r as int).filter(pred).push(x)
                } else {
                    old_pending.take(r as int).filter(pred)
                })) by {
                    old_pending.take(r as int).lemma_filter_push(x, pred);
                }
            }
            let (node_bits, is_musical) = match &self.scheduled_event_arena[slot as usize] {
                Some(e) => {
                    let m = match e.time {
                        Some(t) => t.kind == EventTimeKind::Musical,
                        None => false,
                    };
                    (e.node_id.0, m)
                },
                None => {
                    proof {
                        assert(false);
                    }
                    (0u64, false)
                },
            };
            proof {
                assert(node_bits == x.0.node_id.0);
                assert(is_musical == is_musical_event(x.0));
            }
            let keep = match rule {
                RetainRule::KeepPresent => sched_arena_contains(nodes, node_bits),
                RetainRule::Clear(node, kind) => {
                    let other_node = match node {
                        Some(n) => node_bits != n.0,
                        None => false,
                    };
                    other_node || (is_musical && kind == ClearScheduledEventsType::NonMusicalOnly) || (!is_musical
                        && kind == ClearScheduledEventsType::MusicalOnly)
                },
            };
            proof {
                assert(keep == pred(x));
            }
            if keep {
                self.sorted_event_buffer_indices.set(w, entry);
                proof {
                    kept_idx = kept_idx.push(r as int);
                    kept_e = kept_e.push(x);
                    lemma_count_push(old_pending.take(r as int).filter(pred), x, true);
                    lemma_count_push(old_pending.take(r as int).filter(pred), x, false);
                    if rule is Clear {
                        assert forall|k: u64| #[trigger] present.contains(k) implies {
                            let d = sched_arena_contents(*nodes)[k];
                            &&& d.num_scheduled_musical_events == count_node_kind(kept_e, k, true)
                                + count_node_kind(old_pending.subrange(r + 1, len as int), k, true)
                            &&& d.num_scheduled_non_musical_events == count_node_kind(kept_e, k, false)
                                + count_node_kind(old_pending.subrange(r + 1, len as int), k, false)
                        } by {
                            lemma_count_node_push(kept_e.drop_last(), x, k, true);
                            lemma_count_node_push(kept_e.drop_last(), x, k, false);
                            assert(kept_e.drop_last() =~= old_pending.take(r as int).filter(pred));
                            lemma_count_node_append(seq![x], old_pending.subrange(r + 1, len as int), k, true);
                            lemma_count_node_append(seq![x], old_pending.subrange(r + 1, len as int), k, false);
                            lemma_count_node_push(Seq::<(NodeEvent<E>, i64)>::empty(), x, k, true);
                            lemma_count_node_push(Seq::<(NodeEvent<E>, i64)>::empty(), x, k, false);
                        }
                    }
                }
                w = w + 1;
            } else {
                if let RetainRule::Clear(_, _) = rule {
                    proof {
                        assert(present.contains(node_bits));
                        let sub = old_pending.subrange(r as int, len as int);
                        lemma_count_node_append(seq![x], old_pending.subrange(r + 1, len as int), node_bits, is_musical);
                        lemma_count_node_push(Seq::<(NodeEvent<E>, i64)>::empty(), x, node_bits, is_musical);
                    }
                    let mut data = sched_arena_replace(nodes, node_bits, NodeEventSchedulerData::new());
                    if is_musical {
                        data.num_scheduled_musical_events = data.num_scheduled_musical_events - 1;
                    } else {
                        data.num_scheduled_non_musical_events = data.num_scheduled_non_musical_events - 1;
                    }
                    let _ = sched_arena_replace(nodes, node_bits, data);
                    proof {
                        assert forall|k: u64| #[trigger] present.contains(k) implies {
                            let d = sched_arena_contents(*nodes)[k];
                            &&& d.num_scheduled_musical_events == count_node_kind(kept_e, k, true)
                                + count_node_kind(old_pending.subrange(r + 1, len as int), k, true)
                            &&& d.num_scheduled_non_musical_events == count_node_kind(kept_e, k, false)
                                + count_node_kind(old_pending.subrange(r + 1, len as int), k, false)
                        } by {
                            lemma_count_node_append(seq![x], old_pending.subrange(r + 1, len as int), k, true);
                            lemma_count_node_append(seq![x], old_pending.subrange(r + 1, len as int), k, false);
                            lemma_count_node_push(Seq::<(NodeEvent<E>, i64)>::empty(), x, k, true);
                            lemma_count_node_push(Seq::<(NodeEvent<E>, i64)>::empty(), x, k, false);
                        }
                    }
                }
                if is_musical {
                    self.num_scheduled_musical_events = self.num_scheduled_musical_events - 1;
                } else {
                    self.num_scheduled_non_musical_events = self.num_scheduled_non_musical_events - 1;
                }
                self.scheduled_event_arena.set(slot as usize, None);
                self.scheduled_event_arena_free_slots.push(slot);
                proof {
                    removed_idx = removed_idx.push(r as int);
                    assert forall|i: int| r < i < len implies #[trigger] self.scheduled_event_arena@[old_sorted[i].0 as int]
                        == old_arena[old_sorted[i].0 as int] by {
                        assert(old_sorted[i].0 != old_sorted[r as int].0);
                    }
                    assert forall|j: int| 0 <= j < w implies #[trigger] self.scheduled_event_arena@[old_sorted[kept_idx[j]].0 as int]
                        == old_arena[old_sorted[kept_idx[j]].0 as int] by {
                        assert(old_sorted[kept_idx[j]].0 != old_sorted[r as int].0);
                    }
                }
            }
            r = r + 1;
        }
        self.sorted_event_buffer_indices.truncate(w);
        proof {
            assert(old_pending.take(len as int) =~= old_pending);
            let sorted = self.sorted_event_buffer_indices@;
            let free = self.scheduled_event_arena_free_slots@;
            let arena = self.scheduled_event_arena@;
            assert forall|j: int| 0 <= j < w implies #[trigger] sorted[j] == old_sorted[kept_idx[j]] by {}
            assert(self.pending_events().len() == kept_e.len());
            assert forall|j: int| 0 <= j < w implies #[trigger] self.pending_events()[j] == kept_e[j] by {
                assert(sorted[j] == old_sorted[kept_idx[j]]);
                assert(old_pending[kept_idx[j]] == (slot_event(old_arena, old_sorted[kept_idx[j]].0), old_sorted[kept_idx[j]].1));
            }
            assert(self.pending_events() =~= kept_e);
            assert(old_pending.subrange(len as int, len as int) =~= Seq::<(NodeEvent<E>, i64)>::empty());
            assert forall|i: int, j: int| 0 <= i < j < sorted.len() implies #[trigger] sorted[i].0 != #[trigger] sorted[j].0 by {
                assert(kept_idx[i] < kept_idx[j]);
            }
            assert forall|i: int, j: int| 0 <= i < free.len() && 0 <= j < sorted.len() implies #[trigger] free[i] != #[trigger] sorted[j].0 by {
                if i < old_free.len() {
                } else {
                    let m = i - old_free.len();
                    assert(free[old_free.len() + m] == old_sorted[removed_idx[m]].0);
                    assert(removed_idx[m] != kept_idx[j]);
                }
            }
            assert forall|i: int, j: int| 0 <= i < j < free.len() implies #[trigger] free[i] != #[trigger] free[j] by {
                if j < old_free.len() {
                } else if i < old_free.len() {
                    let m = j - old_free.len();
                    assert(free[old_free.len() + m] == old_sorted[removed_idx[m]].0);
                } else {
                    let m1 = i - old_free.len();
                    let m2 = j - old_free.len();
                    assert(free[old_free.len() + m1] == old_sorted[removed_idx[m1]].0);
                    assert(free[old_free.len() + m2] == old_sorted[removed_idx[m2]].0);
                    assert(removed_idx[m1] < removed_idx[m2]);
                }
            }
            assert forall|i: int| 0 <= i < free.len() implies (#[trigger] free[i] as int) < arena.len() by {
                if i >= old_free.len() {
                    let m = i - old_free.len();
                    assert(free[old_free.len() + m] == old_sorted[removed_idx[m]].0);
                }
            }
            assert forall|i: int| 0 <= i < sorted.len() implies (arena[#[trigger] sorted[i].0 as int] matches Some(e) && e.time is Some) by {
                assert(sorted[i] == old_sorted[kept_idx[i]]);
            }
            if !self.scheduled_events_need_sorting {
                assert forall|i: int, j: int| 0 <= i <= j < sorted.len() implies #[trigger] sorted[i].1 <= #[trigger] sorted[j].1 by {
                    if i < j {
                        assert(kept_idx[i] < kept_idx[j]);
                    }
                }
            }
            if rule is Clear {
                assert forall|k: u64| #[trigger] sched_arena_contents(*nodes).contains_key(k) implies {
                    let d = sched_arena_contents(*nodes)[k];
                    &&& d.num_scheduled_events_this_block == 0
                    &&& d.num_scheduled_musical_events == count_node_kind(self.pending_events(), k, true)
                    &&& d.num_scheduled_non_musical_events == count_node_kind(self.pending_events(), k, false)
                } by {
                    assert(present.contains(k));
                    assert(nodes0.contains_key(k));
                }
            }
        }
    }
    /// Drops the elapsed entries of the sorted list, then the pending events
    /// of nodes that are no longer in `nodes`, freeing their slots.
    pub fn remove_events_from_removed_nodes(&mut self, nodes: &mut Arena<NodeEventSchedulerData>)
        requires
            old(self).wf(),
        ensures
            final(self).wf(),
            final(self).pending_events() == old(self).pending_events().filter(
                |p: (NodeEvent<E>, i64)| sched_arena_contents(*old(nodes)).dom().contains(p.0.node_id.0),
            ),
            final(self).pending_nodes_in(sched_arena_contents(*old(nodes)).dom()),
            final(self).immediate_events() == old(self).immediate_events(),
            final(self).mode() == old(self).mode(),
            final(self).immediate_capacity() == old(self).immediate_capacity(),
            *final(nodes) == *old(nodes),
            old(self).counts_agree(sched_arena_contents(*old(nodes))) ==> final(self).counts_agree(
                sched_arena_contents(*final(nodes)),
            ),
    {
        self.truncate_elapsed_events();
        let ghost mid = self.pending_events();
        self.retain_pending(RetainRule::KeepPresent, nodes);
        proof {
            let present = sched_arena_contents(*nodes).dom();
            let p = |p: (NodeEvent<E>, i64)| rule_keeps(RetainRule::KeepPresent, present, p.0);
            let q = |p: (NodeEvent<E>, i64)| present.contains(p.0.node_id.0);
            assert(p =~= q);
            lemma_filter_subset(mid, q);
            assert forall|i: int| 0 <= i < self.pending_events().len() implies #[trigger] present.contains(
                self.pending_events()[i].0.node_id.0,
            ) by {
                reveal(Seq::filter);
                old(self).pending_events().lemma_filter_pred(q, i);
            }
            if old(self).counts_agree(sched_arena_contents(*old(nodes))) {
                assert forall|k: u64| #[trigger] sched_arena_contents(*nodes).contains_key(k) implies {
                    let d = sched_arena_contents(*nodes)[k];
                    &&& d.num_scheduled_events_this_block == 0
                    &&& d.num_scheduled_musical_events == count_node_kind(self.pending_events(), k, true)
                    &&& d.num_scheduled_non_musical_events == count_node_kind(self.pending_events(), k, false)
                } by {
                    lemma_count_node_filter(mid, q, k, true);
                    lemma_count_node_filter(mid, q, k, false);
                }
            }
        }
    }

    /// Whether a group of events fits in the scheduler's buffers when it
    /// may not grow them (`BufferOutOfSpaceMode::Panic`): the scheduled
    /// events for nodes in `nodes` find free slots, and the immediate ones
    /// room in the immediate event buffer. A scheduler that grows its
    /// buffers always has room.
    pub fn group_fits(&self, event_group: &Vec<NodeEvent<E>>, nodes: &Arena<NodeEventSchedulerData>) -> (r: bool)
        ensures
            r == (self.mode() == BufferOutOfSpaceMode::Panic ==> {
                let present = sched_arena_contents(*nodes).dom();
                &&& scheduled_for_present(event_group@, present).len() <= self.num_free_slots()
                &&& self.immediate_events().len() + immediate_for_present(event_group@, present).len()
                    <= self.immediate_capacity()
            }),
    {
        if self.buffer_out_of_space_mode != BufferOutOfSpaceMode::Panic {
            return true;
        }
        let ghost g = event_group@;
        let ghost present = sched_arena_contents(*nodes).dom();
        let mut num_scheduled: usize = 0;
        let mut num_immediate: usize = 0;
        let mut i: usize = 0;
        while i < event_group.len()
            invariant
                i <= g.len(),
                g == event_group@,
                present == sched_arena_contents(*nodes).dom(),
                num_scheduled == scheduled_for_present(g.take(i as int), present).len(),
                num_immediate == immediate_for_present(g.take(i as int), present).len(),
                num_scheduled + num_immediate <= i,
            decreases g.len() - i,
        {
            proof {
                assert(g.take(i + 1).drop_last() =~= g.take(i as int));
                assert(g.take(i + 1).last() == g[i as int]);
            }
            let e = &event_group[i];
            if sched_arena_contains(nodes, e.node_id.0) {
                if e.time.is_some() {
                    num_scheduled += 1;
                } else {
                    num_immediate += 1;
                }
            }
            i += 1;
        }
        proof {
            assert(g.take(g.len() as int) =~= g);
        }
        num_scheduled <= self.scheduled_event_arena_free_slots.len() && num_immediate <= self.immediate_event_buffer_capacity
            && self.immediate_event_buffer.len() <= self.immediate_event_buffer_capacity - num_immediate
    }

    /// A store for the records of the nodes, with room for `capacity` of
    /// them and none yet: the counts of every record agree with the pending
    /// events, which are all for nodes that have a record, and so do the
    /// immediate-event records, where no event is pending.
    pub fn new_node_records(&self, capacity: usize) -> (r: Arena<NodeEventSchedulerData>)
        ensures
            sched_arena_contents(r).is_empty(),
            self.counts_agree(sched_arena_contents(r)),
            self.pending_events().len() == 0 ==> self.pending_nodes_in(sched_arena_contents(r).dom()),
            self.imm_all_agree(sched_arena_contents(r)),
    {
        sched_arena_new(capacity)
    }

    /// Adds the record of a node, with no events, under its ID; `false`, and
    /// nothing changes, where the ID's bits form no arena index. A record
    /// that sat in the same arena slot under another ID is dropped.
    ///
    /// Where no record sat in that slot, the records are the old ones and
    /// the new one; the counts keep agreeing with the pending events, which
    /// are all for nodes that have a record, and the immediate-event
    /// records keep agreeing with the buffer where it holds no event of the
    /// new node.
    pub fn add_node(&self, nodes: &mut Arena<NodeEventSchedulerData>, node_id: NodeID) -> (r: bool)
        requires
            sched_arena_contents(*old(nodes)).dom().len() < u32::MAX,
        ensures
            r == (node_id.0 >= 0x1_0000_0000),
            !r ==> *final(nodes) == *old(nodes),
            r ==> {
                let o = sched_arena_contents(*old(nodes));
                let n = sched_arena_contents(*final(nodes));
                let d = n[node_id.0];
                &&& n.contains_key(node_id.0)
                &&& d.num_immediate_events == 0
                &&& clump_contents(d.immediate_event_clump_indices).len() == 0
                &&& d.num_scheduled_musical_events == 0
                &&& d.num_scheduled_non_musical_events == 0
                &&& d.num_scheduled_events_this_block == 0
                &&& d.first_sorted_event_index == 0
                &&& forall|k: u64| k != node_id.0 ==> (#[trigger] n.contains_key(k) <==> (o.contains_key(k) && k
                    % 0x1_0000_0000 != node_id.0 % 0x1_0000_0000))
                &&& forall|k: u64| k != node_id.0 && #[trigger] n.contains_key(k) ==> n[k] == o[k]
            },
            r && slot_free(sched_arena_contents(*old(nodes)), node_id.0) ==> {
                let o = sched_arena_contents(*old(nodes));
                let n = sched_arena_contents(*final(nodes));
                &&& n.dom() == o.dom().insert(node_id.0)
                &&& n.remove(node_id.0) == o
                &&& self.counts_agree(o) && self.pending_nodes_in(o.dom()) ==> self.counts_agree(n)
                    && self.pending_nodes_in(n.dom())
                &&& self.imm_all_agree(o) && (forall|i: int|
                    0 <= i < self.immediate_events().len() && #[trigger] self.immediate_events()[i] is Some
                        ==> self.immediate_events()[i]->0.node_id.0 != node_id.0) ==> self.imm_all_agree(n)
            },
    {
        if node_id.0 < 0x1_0000_0000 {
            return false;
        }
        let ghost o = sched_arena_contents(*nodes);
        let fresh = NodeEventSchedulerData::new();
        sched_arena_insert_at(nodes, node_id.0, fresh);
        proof {
            let n = sched_arena_contents(*nodes);
            let k = node_id.0;
            if slot_free(o, k) {
                assert(o.dom().filter(|k2: u64| k2 % 0x1_0000_0000 != k % 0x1_0000_0000) =~= o.dom());
                assert(o.restrict(o.dom()) =~= o);
                assert(!o.contains_key(k));
                assert(n.dom() =~= o.dom().insert(k));
                assert(n.remove(k) =~= o);
                if self.counts_agree(o) && self.pending_nodes_in(o.dom()) {
                    let pe = self.pending_events();
                    assert forall|i: int| 0 <= i < pe.len() implies (#[trigger] pe[i]).0.node_id.0 != k by {
                        assert(o.dom().contains(pe[i].0.node_id.0));
                    }
                    lemma_count_node_absent(pe, k, true);
                    lemma_count_node_absent(pe, k, false);
                    assert forall|i: int| 0 <= i < pe.len() implies #[trigger] n.dom().contains(pe[i].0.node_id.0) by {
                        assert(o.dom().contains(pe[i].0.node_id.0));
                    }
                }
                let imm = self.immediate_events();
                if self.imm_all_agree(o) && (forall|i: int|
                    0 <= i < imm.len() && #[trigger] imm[i] is Some ==> imm[i]->0.node_id.0 != k) {
                    let m = imm_mask(imm, k);
                    assert forall|i: int| 0 <= i < m.len() implies !m[i] by {
                        if imm[i] is Some {
                            assert(imm[i]->0.node_id.0 != k);
                        }
                    }
                    lemma_nothing_marked(m, m.len() as int);
                    assert(self.imm_agrees(k, n[k]));
                    assert forall|k2: u64| #[trigger] n.contains_key(k2) implies self.imm_agrees(k2, n[k2]) by {
                        if k2 != k {
                            assert(o.contains_key(k2));
                        }
                    }
                }
            }
        }
        true
    }

    /// Removes the record of a node, then (as
    /// [`Self::remove_events_from_removed_nodes`] does) the elapsed entries of
    /// the sorted list and the pending events of nodes that no longer have a
    /// record.
    pub fn remove_node(&mut self, nodes: &mut Arena<NodeEventSchedulerData>, node_id: NodeID)
        requires
            old(self).wf(),
        ensures
            final(self).wf(),
            sched_arena_contents(*final(nodes)) == sched_arena_contents(*old(nodes)).remove(node_id.0),
            final(self).pending_events() == old(self).pending_events().filter(
                |p: (NodeEvent<E>, i64)| sched_arena_contents(*final(nodes)).dom().contains(p.0.node_id.0),
            ),
            final(self).pending_nodes_in(sched_arena_contents(*final(nodes)).dom()),
            final(self).immediate_events() == old(self).immediate_events(),
            final(self).mode() == old(self).mode(),
            final(self).immediate_capacity() == old(self).immediate_capacity(),
            old(self).counts_agree(sched_arena_contents(*old(nodes))) ==> final(self).counts_agree(
                sched_arena_contents(*final(nodes)),
            ),
            old(self).imm_all_agree(sched_arena_contents(*old(nodes))) ==> final(self).imm_all_agree(
                sched_arena_contents(*final(nodes)),
            ),
    {
        let ghost o = sched_arena_contents(*nodes);
        let _ = sched_arena_remove(nodes, node_id.0);
        proof {
            let n = sched_arena_contents(*nodes);
            if old(self).counts_agree(o) {
                assert forall|k: u64| #[trigger] n.contains_key(k) implies {
                    &&& n[k].num_scheduled_events_this_block == 0
                    &&& n[k].num_scheduled_musical_events == count_node_kind(old(self).pending_events(), k, true)
                    &&& n[k].num_scheduled_non_musical_events == count_node_kind(old(self).pending_events(), k, false)
                } by {
                    assert(o.contains_key(k));
                }
            }
        }
        let ghost mid = sched_arena_contents(*nodes);
        self.remove_events_from_removed_nodes(nodes);
        proof {
            if old(self).imm_all_agree(o) {
                assert forall|k: u64| #[trigger] mid.contains_key(k) implies self.imm_agrees(k, mid[k]) by {
                    assert(o.contains_key(k));
                    assert(old(self).imm_agrees(k, o[k]));
                }
            }
        }
    }

    /// Handles requests to clear scheduled events, in order. A request for
    /// a node that is not in `nodes` clears nothing; one that would find
    /// no event of its kind is skipped.
    pub fn handle_clear_scheduled_events_event(
        &mut self,
        msgs: &Vec<ClearScheduledEventsEvent>,
        nodes: &mut Arena<NodeEventSchedulerData>,
    )
        requires
            old(self).wf(),
            old(self).counts_agree(sched_arena_contents(*old(nodes))),
            old(self).pending_nodes_in(sched_arena_contents(*old(nodes)).dom()),
        ensures
            final(self).wf(),
            final(self).counts_agree(sched_arena_contents(*final(nodes))),
            final(self).pending_nodes_in(sched_arena_contents(*final(nodes)).dom()),
            final(self).pending_events() == old(self).pending_events().filter(
                |p: (NodeEvent<E>, i64)| clear_keeps(msgs@, msgs@.len() as int, sched_arena_contents(*old(nodes)).dom(), p.0),
            ),
            final(self).immediate_events() == old(self).immediate_events(),
            final(self).mode() == old(self).mode(),
            final(self).immediate_capacity() == old(self).immediate_capacity(),
            sched_arena_contents(*final(nodes)).dom() == sched_arena_contents(*old(nodes)).dom(),
            forall|k: u64| #[trigger] sched_arena_contents(*old(nodes)).contains_key(k) ==> {
                let d0 = sched_arena_contents(*old(nodes))[k];
                let d1 = sched_arena_contents(*final(nodes))[k];
                &&& d1.num_immediate_events == d0.num_immediate_events
                &&& d1.immediate_event_clump_indices == d0.immediate_event_clump_indices
                &&& d1.first_sorted_event_index == d0.first_sorted_event_index
            },
    {
        self.truncate_elapsed_events();
        let ghost present = sched_arena_contents(*nodes).dom();
        let ghost p0 = self.pending_events();
        let ghost m = msgs@;
        let mut j: usize = 0;
        proof {
            let k0 = |p: (NodeEvent<E>, i64)| clear_keeps(m, 0, present, p.0);
            lemma_filter_keep_all(p0, k0);
        }
        while j < msgs.len()
            invariant
                self.wf(),
                self.num_elapsed_sorted_events == 0,
                m == msgs@,
                j <= m.len(),
                present == sched_arena_contents(*old(nodes)).dom(),
                p0 == old(self).pending_events(),
                self.counts_agree(sched_arena_contents(*nodes)),
                self.pending_nodes_in(present),
                sched_arena_contents(*nodes).dom() == present,
                self.pending_events() == p0.filter(|p: (NodeEvent<E>, i64)| clear_keeps(m, j as int, present, p.0)),
                self.immediate_events() == old(self).immediate_events(),
                self.mode() == old(self).mode(),
                self.immediate_capacity() == old(self).immediate_capacity(),
                forall|k: u64| #[trigger] present.contains(k) ==> {
                    let d0 = sched_arena_contents(*old(nodes))[k];
                    let d1 = sched_arena_contents(*nodes)[k];
                    &&& d1.num_immediate_events == d0.num_immediate_events
                    &&& d1.immediate_event_clump_indices == d0.immediate_event_clump_indices
                    &&& d1.first_sorted_event_index == d0.first_sorted_event_index
                },
            decreases m.len() - j,
        {
            let msg = msgs[j];
            let ghost cur = self.pending_events();
            let ghost one = |p: (NodeEvent<E>, i64)| clear_keeps_one(msg.node_id, msg.event_type, p.0);
            let ghost prev_k = |p: (NodeEvent<E>, i64)| clear_keeps(m, j as int, present, p.0);
            let ghost next_k = |p: (NodeEvent<E>, i64)| clear_keeps(m, j + 1, present, p.0);
            let skip = match msg.node_id {
                Some(node_id) => match sched_arena_get(nodes, node_id.0) {
                    None => true,
                    Some(d) => match msg.event_type {
                        ClearScheduledEventsType::All => d.num_scheduled_musical_events == 0
                            && d.num_scheduled_non_musical_events == 0,
                        ClearScheduledEventsType::MusicalOnly => d.num_scheduled_musical_events == 0,
                        ClearScheduledEventsType::NonMusicalOnly => d.num_scheduled_non_musical_events == 0,
                    },
                },
                None => match msg.event_type {
                    ClearScheduledEventsType::All => self.num_scheduled_musical_events == 0
                        && self.num_scheduled_non_musical_events == 0,
                    ClearScheduledEventsType::MusicalOnly => self.num_scheduled_musical_events == 0,
                    ClearScheduledEventsType::NonMusicalOnly => self.num_scheduled_non_musical_events == 0,
                },
            };
            proof {
                assert(m[j as int] == msg);
                let absent = msg.node_id matches Some(n) && !present.contains(n.0);
                if absent {
                    assert(next_k =~= prev_k) by {
                        assert forall|p: (NodeEvent<E>, i64)| #[trigger] next_k(p) == prev_k(p) by {
                            if prev_k(p) {
                                assert forall|t: int| 0 <= t < j + 1 implies (#[trigger] m[t].node_id matches Some(n) && !present.contains(n.0))
                                    || clear_keeps_one(m[t].node_id, m[t].event_type, p.0) by {
                                    if t < j {
                                        assert(prev_k(p));
                                    }
                                }
                            }
                        }
                    }
                } else {
                    assert(next_k =~= |p: (NodeEvent<E>, i64)| prev_k(p) && one(p)) by {
                        assert forall|p: (NodeEvent<E>, i64)| #[trigger] next_k(p) == (prev_k(p) && one(p)) by {
                            if prev_k(p) && one(p) {
                                assert forall|t: int| 0 <= t < j + 1 implies (#[trigger] m[t].node_id matches Some(n) && !present.contains(n.0))
                                    || clear_keeps_one(m[t].node_id, m[t].event_type, p.0) by {
                                    if t < j {
                                        assert(prev_k(p));
                                    }
                                }
                            }
                            if next_k(p) {
                                assert((m[j as int].node_id matches Some(n) && !present.contains(n.0)) || clear_keeps_one(
                                    m[j as int].node_id,
                                    m[j as int].event_type,
                                    p.0,
                                ));
                            }
                        }
                    }
                    lemma_filter_filter(p0, prev_k, one);
                }
            }
            if !skip {
                self.retain_pending(RetainRule::Clear(msg.node_id, msg.event_type), nodes);
                proof {
                    let rk = |p: (NodeEvent<E>, i64)| rule_keeps(RetainRule::Clear(msg.node_id, msg.event_type), present, p.0);
                    assert(rk =~= one);
                    lemma_filter_subset(cur, one);
                    assert forall|i: int| 0 <= i < self.pending_events().len() implies #[trigger] present.contains(
                        self.pending_events()[i].0.node_id.0,
                    ) by {
                        assert(cur.contains(self.pending_events()[i]));
                    }
                }
            } else {
                proof {
                    let absent = msg.node_id matches Some(n) && !present.contains(n.0);
                    if !absent {
                        match msg.node_id {
                            Some(n) => {
                                let d = sched_arena_contents(*nodes)[n.0];
                                assert(sched_arena_contents(*nodes).contains_key(n.0));
                                if msg.event_type != ClearScheduledEventsType::NonMusicalOnly {
                                    lemma_count_node_zero_none(cur, n.0, true);
                                }
                                if msg.event_type != ClearScheduledEventsType::MusicalOnly {
                                    lemma_count_node_zero_none(cur, n.0, false);
                                }
                                if msg.event_type == ClearScheduledEventsType::MusicalOnly {
                                    assert forall|i: int| 0 <= i < cur.len() implies one(#[trigger] cur[i]) by {
                                        assert(!(cur[i].0.node_id.0 == n.0 && is_musical_event(cur[i].0) == true));
                                    }
                                } else if msg.event_type == ClearScheduledEventsType::NonMusicalOnly {
                                    assert forall|i: int| 0 <= i < cur.len() implies one(#[trigger] cur[i]) by {
                                        assert(!(cur[i].0.node_id.0 == n.0 && is_musical_event(cur[i].0) == false));
                                    }
                                } else {
                                    assert forall|i: int| 0 <= i < cur.len() implies one(#[trigger] cur[i]) by {
                                        assert(!(cur[i].0.node_id.0 == n.0 && is_musical_event(cur[i].0) == true));
                                        assert(!(cur[i].0.node_id.0 == n.0 && is_musical_event(cur[i].0) == false));
                                    }
                                }
                            },
                            None => {
                                if msg.event_type != ClearScheduledEventsType::NonMusicalOnly {
                                    lemma_count_zero_none(cur, true);
                                }
                                if msg.event_type != ClearScheduledEventsType::MusicalOnly {
                                    lemma_count_zero_none(cur, false);
                                }
                                if msg.event_type == ClearScheduledEventsType::MusicalOnly {
                                    assert forall|i: int| 0 <= i < cur.len() implies one(#[trigger] cur[i]) by {
                                        assert(is_musical_event(cur[i].0) != true);
                                    }
                                } else if msg.event_type == ClearScheduledEventsType::NonMusicalOnly {
                                    assert forall|i: int| 0 <= i < cur.len() implies one(#[trigger] cur[i]) by {
                                        assert(is_musical_event(cur[i].0) != false);
                                    }
                                } else {
                                    assert forall|i: int| 0 <= i < cur.len() implies one(#[trigger] cur[i]) by {
                                        assert(is_musical_event(cur[i].0) != true);
                                        assert(is_musical_event(cur[i].0) != false);
                                    }
                                }
                            },
                        }
                        lemma_filter_keep_all(cur, one);
                    }
                }
            }
            j = j + 1;
        }
    }
    /// Drops the elapsed entries, then sorts the pending entries by time if
    /// a push or a change of times may have left them out of order.
    fn sort_events(&mut self)
        requires
            old(self).wf(),
        ensures
            final(self).wf(),
            final(self).num_elapsed_sorted_events == 0,
            !final(self).scheduled_events_need_sorting,
            final(self).pending_events().to_multiset() == old(self).pending_events().to_multiset(),
            final(self).pending_events().len() == old(self).pending_events().len(),
            forall|k: u64, m: bool| #[trigger] count_node_kind(final(self).pending_events(), k, m) == count_node_kind(
                old(self).pending_events(),
                k,
                m,
            ),
            !old(self).scheduled_events_need_sorting ==> final(self).pending_events() == old(self).pending_events(),
            final(self).scheduled_event_arena@ == old(self).scheduled_event_arena@,
            final(self).scheduled_event_arena_free_slots@ == old(self).scheduled_event_arena_free_slots@,
            final(self).immediate_event_buffer@ == old(self).immediate_event_buffer@,
            final(self).immediate_event_buffer_capacity == old(self).immediate_event_buffer_capacity,
            final(self).buffer_out_of_space_mode == old(self).buffer_out_of_space_mode,
    {
        self.truncate_elapsed_events();
        if !self.scheduled_events_need_sorting {
            return;
        }
        let ghost p0 = self.pending_events();
        let len = self.sorted_event_buffer_indices.len();
        let mut i: usize = 1;
        while i < len
            invariant
                self.wf(),
                self.scheduled_events_need_sorting,
                self.num_elapsed_sorted_events == 0,
                len == self.sorted_event_buffer_indices@.len(),
                1 <= i <= len || len == 0,
                forall|a: int, b: int| 0 <= a <= b < i && b < len ==> #[trigger] self.sorted_event_buffer_indices@[a].1
                    <= #[trigger] self.sorted_event_buffer_indices@[b].1,
                p0 == old(self).pending_events(),
                self.pending_events().to_multiset() == p0.to_multiset(),
                self.pending_events().len() == p0.len(),
                forall|k: u64, m: bool| #[trigger] count_node_kind(self.pending_events(), k, m) == count_node_kind(p0, k, m),
                self.scheduled_event_arena@ == old(self).scheduled_event_arena@,
                self.scheduled_event_arena_free_slots@ == old(self).scheduled_event_arena_free_slots@,
                self.immediate_event_buffer@ == old(self).immediate_event_buffer@,
                self.immediate_event_buffer_capacity == old(self).immediate_event_buffer_capacity,
                self.buffer_out_of_space_mode == old(self).buffer_out_of_space_mode,
            decreases len - i,
        {
            let mut j: usize = i;
            while j > 0 && self.sorted_event_buffer_indices[j - 1].1 > self.sorted_event_buffer_indices[j].1
                invariant
                    self.wf(),
                    self.scheduled_events_need_sorting,
                    self.num_elapsed_sorted_events == 0,
                    len == self.sorted_event_buffer_indices@.len(),
                    0 <= j <= i < len,
                    forall|a: int, b: int| 0 <= a <= b <= i && a != j && b != j ==> #[trigger] self.sorted_event_buffer_indices@[a].1
                        <= #[trigger] self.sorted_event_buffer_indices@[b].1,
                    forall|b: int| j < b <= i ==> self.sorted_event_buffer_indices@[j as int].1
                        <= #[trigger] self.sorted_event_buffer_indices@[b].1,
                    p0 == old(self).pending_events(),
                    self.pending_events().to_multiset() == p0.to_multiset(),
                    self.pending_events().len() == p0.len(),
                    forall|k: u64, m: bool| #[trigger] count_node_kind(self.pending_events(), k, m) == count_node_kind(p0, k, m),
                    self.scheduled_event_arena@ == old(self).scheduled_event_arena@,
                    self.scheduled_event_arena_free_slots@ == old(self).scheduled_event_arena_free_slots@,
                    self.immediate_event_buffer@ == old(self).immediate_event_buffer@,
                    self.immediate_event_buffer_capacity == old(self).immediate_event_buffer_capacity,
                    self.buffer_out_of_space_mode == old(self).buffer_out_of_space_mode,
                decreases j,
            {
                let ghost pre = *self;
                let ghost pv = self.pending_events();
                let a = self.sorted_event_buffer_indices[j - 1];
                let b = self.sorted_event_buffer_indices[j];
                self.sorted_event_buffer_indices.set(j - 1, b);
                self.sorted_event_buffer_indices.set(j, a);
                proof {
                    let jj = j - 1;
                    assert(self.sorted_event_buffer_indices@ =~= pre.sorted_event_buffer_indices@.update(jj as int, b).update(
                        j as int,
                        a,
                    ));
                    assert(self.pending_events() =~= pv.update(jj as int, pv[j as int]).update(j as int, pv[jj as int]));
                    lemma_multiset_swap(pv, jj as int);
                    assert forall|k: u64, m: bool| #[trigger] count_node_kind(self.pending_events(), k, m) == count_node_kind(p0, k, m) by {
                        lemma_count_node_swap(pv, jj as int, k, m);
                    }
                    lemma_count_swap(pv, jj as int, true);
                    lemma_count_swap(pv, jj as int, false);
                    let sorted = self.sorted_event_buffer_indices@;
                    let old_sorted = pre.sorted_event_buffer_indices@;
                    assert forall|x: int, y: int| 0 <= x < y < sorted.len() implies #[trigger] sorted[x].0 != #[trigger] sorted[y].0 by {
                        let ox = if x == jj { j as int } else if x == j { jj as int } else { x };
                        let oy = if y == jj { j as int } else if y == j { jj as int } else { y };
                        assert(sorted[x] == old_sorted[ox]);
                        assert(sorted[y] == old_sorted[oy]);
                        if ox < oy {
                            assert(old_sorted[ox].0 != old_sorted[oy].0);
                        } else {
                            assert(old_sorted[oy].0 != old_sorted[ox].0);
                        }
                    }
                    let free = self.scheduled_event_arena_free_slots@;
                    assert forall|x: int, y: int| 0 <= x < free.len() && 0 <= y < sorted.len() implies #[trigger] free[x] != #[trigger] sorted[y].0 by {
                        let oy = if y == jj { j as int } else if y == j { jj as int } else { y };
                        assert(sorted[y] == old_sorted[oy]);
                    }
                    assert forall|y: int| 0 <= y < sorted.len() implies (self.scheduled_event_arena@[#[trigger] sorted[y].0 as int] matches Some(e) && e.time is Some) by {
                        let oy = if y == jj { j as int } else if y == j { jj as int } else { y };
                        assert(sorted[y] == old_sorted[oy]);
                    }
                    assert forall|y: int| 0 <= y < sorted.len() implies (#[trigger] sorted[y].0 as int) < self.scheduled_event_arena@.len() by {
                        let oy = if y == jj { j as int } else if y == j { jj as int } else { y };
                        assert(sorted[y] == old_sorted[oy]);
                    }
                }
                j = j - 1;
            }
            proof {
                let sorted = self.sorted_event_buffer_indices@;
                assert forall|a: int, b: int| 0 <= a <= b < i + 1 && b < len implies #[trigger] sorted[a].1 <= #[trigger] sorted[b].1 by {
                    if a == j && b != j {
                    } else if b == j && a != j {
                        if a < j {
                            assert(sorted[a].1 <= sorted[j - 1].1);
                        }
                    }
                }
            }
            i = i + 1;
        }
        self.scheduled_events_need_sorting = false;
        proof {
            let sorted = self.sorted_event_buffer_indices@;
            if len > 0 {
                assert forall|a: int, b: int| 0 <= a <= b < sorted.len() implies #[trigger] sorted[a].1 <= #[trigger] sorted[b].1 by {}
            }
        }
    }
    /// The part of the current block's elapsed events where `d`'s node
    /// finds the ones it has not been handed yet.
    pub open spec fn node_window(&self, d: NodeEventSchedulerData) -> Seq<(u32, Option<NodeEvent<E>>, i64)> {
        if d.num_scheduled_events_this_block == 0 {
            Seq::empty()
        } else {
            self.block_events().subrange(d.first_sorted_event_index as int, self.block_events().len() as int)
        }
    }

    /// Whether the node counts of `nodes` agree with the scheduler during a
    /// block: each node's counts of musical and other scheduled events are
    /// the numbers of its pending events of each kind plus those of its
    /// elapsed events it has not been handed yet, and its count for this
    /// block is the number of the latter.
    pub open spec fn block_agrees(&self, nodes: Map<u64, NodeEventSchedulerData>) -> bool {
        forall|k: u64| #[trigger] nodes.contains_key(k) ==> {
            let d = nodes[k];
            let w = self.node_window(d);
            &&& (d.num_scheduled_events_this_block > 0 ==> d.first_sorted_event_index <= self.block_events().len())
            &&& d.num_scheduled_events_this_block == count_block_kind(w, k, true) + count_block_kind(w, k, false)
            &&& d.num_scheduled_musical_events == count_node_kind(self.pending_events(), k, true) + count_block_kind(w, k, true)
            &&& d.num_scheduled_non_musical_events == count_node_kind(self.pending_events(), k, false) + count_block_kind(
                w,
                k,
                false,
            )
        }
    }

    /// Once every node has been handed its elapsed events, the counts agree
    /// with the pending events alone.
    pub proof fn lemma_block_done_counts_agree(&self, nodes: Map<u64, NodeEventSchedulerData>)
        requires
            self.block_agrees(nodes),
            forall|k: u64| #[trigger] nodes.contains_key(k) ==> nodes[k].num_scheduled_events_this_block == 0,
        ensures
            self.counts_agree(nodes),
    {
        assert forall|k: u64| #[trigger] nodes.contains_key(k) implies {
            &&& nodes[k].num_scheduled_events_this_block == 0
            &&& nodes[k].num_scheduled_musical_events == count_node_kind(self.pending_events(), k, true)
            &&& nodes[k].num_scheduled_non_musical_events == count_node_kind(self.pending_events(), k, false)
        } by {
            assert(self.node_window(nodes[k]) =~= Seq::<(u32, Option<NodeEvent<E>>, i64)>::empty());
        }
    }

    /// Finds the scheduled events that elapse before `end_samples`, the end
    /// of this processing block: the pending events are sorted by time, and
    /// those before `end_samples` become the block's elapsed events. Each
    /// node in `nodes` counts its elapsed events and notes where the first
    /// one is; the event of a node that is gone is dropped.
    #[verifier::rlimit(60)]
    #[verifier::spinoff_prover]
    pub fn prepare_process_block(&mut self, end_samples: i64, nodes: &mut Arena<NodeEventSchedulerData>)
        requires
            old(self).wf(),
            old(self).counts_agree(sched_arena_contents(*old(nodes))),
        ensures
            final(self).wf(),
            final(self).block_agrees(sched_arena_contents(*final(nodes))),
            sched_arena_contents(*final(nodes)).dom() == sched_arena_contents(*old(nodes)).dom(),
            forall|i: int| 0 <= i < final(self).pending_events().len() ==> (#[trigger] final(self).pending_events()[i]).1 >= end_samples,
            forall|i: int| 0 <= i < final(self).block_events().len() ==> (#[trigger] final(self).block_events()[i]).2 < end_samples,
            forall|i: int, j: int| 0 <= i <= j < final(self).block_events().len() ==> (#[trigger] final(self).block_events()[i]).2
                <= (#[trigger] final(self).block_events()[j]).2,
            forall|i: int, j: int| 0 <= i <= j < final(self).pending_events().len() ==> (#[trigger] final(self).pending_events()[i]).1
                <= (#[trigger] final(self).pending_events()[j]).1,
            exists|all: Seq<(NodeEvent<E>, i64)>| {
                &&& all.to_multiset() == old(self).pending_events().to_multiset()
                &&& all.len() == final(self).block_events().len() + final(self).pending_events().len()
                &&& all.subrange(final(self).block_events().len() as int, all.len() as int) == final(self).pending_events()
                &&& forall|i: int| 0 <= i < final(self).block_events().len() ==> {
                    let b = #[trigger] final(self).block_events()[i];
                    &&& b.2 == all[i].1
                    &&& (if sched_arena_contents(*old(nodes)).contains_key(all[i].0.node_id.0) {
                        b.1 == Some(all[i].0)
                    } else {
                        b.1 is None
                    })
                }
            },
            final(self).immediate_events() == old(self).immediate_events(),
            final(self).mode() == old(self).mode(),
            final(self).immediate_capacity() == old(self).immediate_capacity(),
            forall|k: u64| #[trigger] sched_arena_contents(*old(nodes)).contains_key(k) ==> {
                let d0 = sched_arena_contents(*old(nodes))[k];
                let d1 = sched_arena_contents(*final(nodes))[k];
                &&& d1.num_immediate_events == d0.num_immediate_events
                &&& d1.immediate_event_clump_indices == d0.immediate_event_clump_indices
                &&& d1.num_scheduled_musical_events == d0.num_scheduled_musical_events
                &&& d1.num_scheduled_non_musical_events == d0.num_scheduled_non_musical_events
            },
            old(self).imm_all_agree(sched_arena_contents(*old(nodes))) ==> final(self).imm_all_agree(
                sched_arena_contents(*final(nodes)),
            ),
    {
        self.sort_events();
        let ghost s0 = self.pending_events();
        let ghost present = sched_arena_contents(*nodes).dom();
        let ghost nodes0 = sched_arena_contents(*nodes);
        let ghost old_sorted = self.sorted_event_buffer_indices@;
        let ghost old_arena = self.scheduled_event_arena@;
        let ghost old_free = self.scheduled_event_arena_free_slots@;
        let len = self.sorted_event_buffer_indices.len();
        let mut i: usize = 0;
        proof {
            assert(s0.subrange(0, len as int) =~= s0);
            assert forall|k: u64| #[trigger] present.contains(k) implies nodes0[k].num_scheduled_events_this_block == 0 by {
                assert(nodes0.contains_key(k));
            }
        }
        while i < len && self.sorted_event_buffer_indices[i].1 < end_samples
            invariant
                i <= len,
                len == old_sorted.len(),
                s0.len() == len,
                old(self).wf(),
                old(self).counts_agree(nodes0),
                present == sched_arena_contents(*old(nodes)).dom(),
                nodes0 == sched_arena_contents(*old(nodes)),
                s0.to_multiset() == old(self).pending_events().to_multiset(),
                forall|k: u64, m: bool| #[trigger] count_node_kind(s0, k, m) == count_node_kind(old(self).pending_events(), k, m),
                forall|a: int, b: int| 0 <= a <= b < len ==> #[trigger] old_sorted[a].1 <= #[trigger] old_sorted[b].1,
                forall|j: int| 0 <= j < len ==> #[trigger] s0[j] == (slot_event(old_arena, old_sorted[j].0), old_sorted[j].1),
                forall|j: int| 0 <= j < len ==> (#[trigger] old_sorted[j].0 as int) < old_arena.len(),
                forall|j: int| 0 <= j < len ==> (old_arena[#[trigger] old_sorted[j].0 as int] matches Some(e) && e.time is Some),
                forall|a: int, b: int| 0 <= a < b < len ==> #[trigger] old_sorted[a].0 != #[trigger] old_sorted[b].0,
                forall|a: int, b: int| 0 <= a < old_free.len() && 0 <= b < len ==> #[trigger] old_free[a] != #[trigger] old_sorted[b].0,
                forall|a: int, b: int| 0 <= a < b < old_free.len() ==> #[trigger] old_free[a] != #[trigger] old_free[b],
                forall|a: int| 0 <= a < old_free.len() ==> (#[trigger] old_free[a] as int) < old_arena.len(),
                old_free.len() + len == old_arena.len(),
                old_arena.len() <= u32::MAX,
                old(self).buffer_out_of_space_mode == BufferOutOfSpaceMode::AllocateOnAudioThread ==> old_arena.len() > 0,
                self.sorted_event_buffer_indices@ == old_sorted,
                self.num_elapsed_sorted_events == i,
                !self.scheduled_events_need_sorting,
                self.scheduled_event_arena@.len() == old_arena.len(),
                forall|j: int| 0 <= j < old_arena.len() && (forall|b: int| 0 <= b < i ==> old_sorted[b].0 != j) ==> #[trigger] self.scheduled_event_arena@[j] == old_arena[j],
                forall|j: int| 0 <= j < i ==> #[trigger] self.scheduled_event_arena@[old_sorted[j].0 as int] == (if present.contains(s0[j].0.node_id.0) {
                    old_arena[old_sorted[j].0 as int]
                } else {
                    None
                }),
                forall|j: int| 0 <= j < i ==> (#[trigger] old_sorted[j]).1 < end_samples,
                self.scheduled_event_arena_free_slots@ == old_free + old_sorted.take(i as int).map_values(|e: (u32, i64)| e.0),
                self.num_scheduled_musical_events == count_kind(s0.subrange(i as int, len as int), true),
                self.num_scheduled_non_musical_events == count_kind(s0.subrange(i as int, len as int), false),
                self.immediate_event_buffer@ == old(self).immediate_event_buffer@,
                self.immediate_event_buffer_capacity == old(self).immediate_event_buffer_capacity,
                self.buffer_out_of_space_mode == old(self).buffer_out_of_space_mode,
                sched_arena_contents(*nodes).dom() == present,
                forall|k: u64| #[trigger] present.contains(k) ==> {
                    let d0 = nodes0[k];
                    let d = sched_arena_contents(*nodes)[k];
                    &&& d.num_immediate_events == d0.num_immediate_events
                    &&& d.immediate_event_clump_indices == d0.immediate_event_clump_indices
                    &&& d.num_scheduled_musical_events == d0.num_scheduled_musical_events
                    &&& d.num_scheduled_non_musical_events == d0.num_scheduled_non_musical_events
                    &&& d.num_scheduled_events_this_block == count_node_kind(s0.take(i as int), k, true) + count_node_kind(
                        s0.take(i as int),
                        k,
                        false,
                    )
                    &&& (d.num_scheduled_events_this_block == 0 ==> forall|j: int| 0 <= j < i ==> (#[trigger] s0[j]).0.node_id.0 != k)
                    &&& (d.num_scheduled_events_this_block > 0 ==> {
                        &&& d.first_sorted_event_index < i
                        &&& s0[d.first_sorted_event_index as int].0.node_id.0 == k
                        &&& forall|j: int| 0 <= j < d.first_sorted_event_index ==> (#[trigger] s0[j]).0.node_id.0 != k
                    })
                },
            decreases len - i,
        {
            let entry = self.sorted_event_buffer_indices[i];
            let slot = entry.0;
            let ghost x = s0[i as int];
            proof {
                assert(s0.subrange(i as int, len as int) =~= seq![x] + s0.subrange(i + 1, len as int));
                lemma_count_append(seq![x], s0.subrange(i + 1, len as int), true);
                lemma_count_append(seq![x], s0.subrange(i + 1, len as int), false);
                lemma_count_push(Seq::<(NodeEvent<E>, i64)>::empty(), x, true);
                lemma_count_push(Seq::<(NodeEvent<E>, i64)>::empty(), x, false);
                assert(seq![x] =~= Seq::<(NodeEvent<E>, i64)>::empty().push(x));
                assert(s0.take(i + 1) =~= s0.take(i as int).push(x));
                assert forall|b: int| 0 <= b < i implies old_sorted[b].0 != slot by {
                    assert(old_sorted[b].0 != old_sorted[i as int].0);
                }
                assert(self.scheduled_event_arena@[slot as int] == old_arena[slot as int]);
            }
            let (node_bits, is_musical) = match &self.scheduled_event_arena[slot as usize] {
                Some(e) => {
                    let m = match e.time {
                        Some(t) => t.kind == EventTimeKind::Musical,
                        None => false,
                    };
                    (e.node_id.0, m)
                },
                None => {
                    proof {
                        assert(false);
                    }
                    (0u64, false)
                },
            };
            proof {
                assert(node_bits == x.0.node_id.0);
                assert(is_musical == is_musical_event(x.0));
            }
            if is_musical {
                self.num_scheduled_musical_events = self.num_scheduled_musical_events - 1;
            } else {
                self.num_scheduled_non_musical_events = self.num_scheduled_non_musical_events - 1;
            }
            self.scheduled_event_arena_free_slots.push(slot);
            let ghost nodes_before = sched_arena_contents(*nodes);
            if sched_arena_contains(nodes, node_bits) {
                let mut data = sched_arena_replace(nodes, node_bits, NodeEventSchedulerData::new());
                proof {
                    assert(present.contains(node_bits));
                    lemma_count_node_both_bound(s0.take(i as int), node_bits);
                    assert(data.num_scheduled_events_this_block <= i);
                }
                if data.num_scheduled_events_this_block == 0 {
                    data.first_sorted_event_index = i;
                }
                data.num_scheduled_events_this_block = data.num_scheduled_events_this_block + 1;
                let _ = sched_arena_replace(nodes, node_bits, data);
            } else {
                self.scheduled_event_arena.set(slot as usize, None);
            }
            self.num_elapsed_sorted_events = self.num_elapsed_sorted_events + 1;
            proof {
                assert(old_sorted.take(i + 1).map_values(|e: (u32, i64)| e.0) =~= old_sorted.take(i as int).map_values(
                    |e: (u32, i64)| e.0,
                ).push(slot));
                assert(self.scheduled_event_arena_free_slots@ =~= old_free + old_sorted.take(i + 1).map_values(|e: (u32, i64)| e.0));
                assert forall|k: u64| #[trigger] present.contains(k) implies {
                    let d0 = nodes0[k];
                    let d = sched_arena_contents(*nodes)[k];
                    &&& d.num_immediate_events == d0.num_immediate_events
                    &&& d.immediate_event_clump_indices == d0.immediate_event_clump_indices
                    &&& d.num_scheduled_musical_events == d0.num_scheduled_musical_events
                    &&& d.num_scheduled_non_musical_events == d0.num_scheduled_non_musical_events
                    &&& d.num_scheduled_events_this_block == count_node_kind(s0.take(i + 1), k, true) + count_node_kind(
                        s0.take(i + 1),
                        k,
                        false,
                    )
                    &&& (d.num_scheduled_events_this_block == 0 ==> forall|j: int| 0 <= j < i + 1 ==> (#[trigger] s0[j]).0.node_id.0 != k)
                    &&& (d.num_scheduled_events_this_block > 0 ==> {
                        &&& d.first_sorted_event_index < i + 1
                        &&& s0[d.first_sorted_event_index as int].0.node_id.0 == k
                        &&& forall|j: int| 0 <= j < d.first_sorted_event_index ==> (#[trigger] s0[j]).0.node_id.0 != k
                    })
                } by {
                    lemma_count_node_push(s0.take(i as int), x, k, true);
                    lemma_count_node_push(s0.take(i as int), x, k, false);
                    assert(nodes_before.contains_key(k));
                }
                assert forall|j: int| 0 <= j < old_arena.len() && (forall|b: int| 0 <= b < i + 1 ==> old_sorted[b].0 != j) implies #[trigger] self.scheduled_event_arena@[j] == old_arena[j] by {
                    assert(old_sorted[i as int].0 != j);
                }
                assert forall|j: int| 0 <= j < i + 1 implies #[trigger] self.scheduled_event_arena@[old_sorted[j].0 as int] == (if present.contains(s0[j].0.node_id.0) {
                    old_arena[old_sorted[j].0 as int]
                } else {
                    None
                }) by {
                    if j < i {
                        assert(old_sorted[j].0 != old_sorted[i as int].0);
                    }
                }
            }
            i = i + 1;
        }
        proof {
            let sorted = self.sorted_event_buffer_indices@;
            let arena = self.scheduled_event_arena@;
            let free = self.scheduled_event_arena_free_slots@;
            let ne = i as int;
            let taken = old_sorted.take(ne).map_values(|e: (u32, i64)| e.0);
            // The entries left pending are unchanged.
            assert forall|j: int| ne <= j < len implies #[trigger] arena[old_sorted[j].0 as int] == old_arena[old_sorted[j].0 as int] by {
                assert forall|b: int| 0 <= b < ne implies old_sorted[b].0 != old_sorted[j].0 by {
                    assert(old_sorted[b].0 != old_sorted[j].0);
                }
            }
            assert(self.pending_events() =~= s0.subrange(ne, len as int)) by {
                assert forall|j: int| 0 <= j < len - ne implies #[trigger] self.pending_events()[j] == s0.subrange(ne, len as int)[j] by {
                    assert(arena[old_sorted[ne + j].0 as int] == old_arena[old_sorted[ne + j].0 as int]);
                }
            }
            // Remaining entries are at or after the end of the block.
            if i < len {
                assert(old_sorted[ne].1 >= end_samples);
                assert forall|j: int| 0 <= j < self.pending_events().len() implies (#[trigger] self.pending_events()[j]).1 >= end_samples by {
                    assert(old_sorted[ne].1 <= old_sorted[ne + j].1);
                }
            }
            // Free slots stay distinct and apart from the pending ones.
            assert forall|a: int| 0 <= a < free.len() implies (#[trigger] free[a] as int) < arena.len() by {
                if a >= old_free.len() {
                    assert(free[a] == taken[a - old_free.len()]);
                }
            }
            assert forall|a: int, b: int| 0 <= a < b < free.len() implies #[trigger] free[a] != #[trigger] free[b] by {
                if b >= old_free.len() {
                    assert(free[b] == old_sorted[b - old_free.len()].0);
                    if a >= old_free.len() {
                        assert(free[a] == old_sorted[a - old_free.len()].0);
                    }
                }
            }
            assert forall|a: int, b: int| 0 <= a < free.len() && ne <= b < sorted.len() implies #[trigger] free[a] != #[trigger] sorted[b].0 by {
                if a >= old_free.len() {
                    assert(free[a] == old_sorted[a - old_free.len()].0);
                }
            }
            assert forall|b: int| ne <= b < sorted.len() implies (arena[#[trigger] sorted[b].0 as int] matches Some(e) && e.time is Some) by {
                assert(arena[old_sorted[b].0 as int] == old_arena[old_sorted[b].0 as int]);
            }
            // The block view.
            let all = s0;
            assert(all.subrange(ne, all.len() as int) == self.pending_events());
            assert forall|j: int| 0 <= j < self.block_events().len() implies {
                let b = #[trigger] self.block_events()[j];
                &&& b.2 == all[j].1
                &&& (if sched_arena_contents(*old(nodes)).contains_key(all[j].0.node_id.0) {
                    b.1 == Some(all[j].0)
                } else {
                    b.1 is None
                })
            } by {
                assert(self.block_events()[j] == (old_sorted[j].0, arena[old_sorted[j].0 as int], old_sorted[j].1));
            }
            assert forall|j: int| 0 <= j < self.block_events().len() implies (#[trigger] self.block_events()[j]).2 < end_samples by {}
            assert forall|a: int, b: int| 0 <= a <= b < self.block_events().len() implies (#[trigger] self.block_events()[a]).2
                <= (#[trigger] self.block_events()[b]).2 by {}
            assert forall|a: int, b: int| 0 <= a <= b < self.pending_events().len() implies (#[trigger] self.pending_events()[a]).1
                <= (#[trigger] self.pending_events()[b]).1 by {
                assert(old_sorted[ne + a].1 <= old_sorted[ne + b].1);
            }
            // Node counts.
            assert forall|k: u64| #[trigger] sched_arena_contents(*nodes).contains_key(k) implies {
                let d = sched_arena_contents(*nodes)[k];
                let w = self.node_window(d);
                &&& (d.num_scheduled_events_this_block > 0 ==> d.first_sorted_event_index <= self.block_events().len())
                &&& d.num_scheduled_events_this_block == count_block_kind(w, k, true) + count_block_kind(w, k, false)
                &&& d.num_scheduled_musical_events == count_node_kind(self.pending_events(), k, true) + count_block_kind(w, k, true)
                &&& d.num_scheduled_non_musical_events == count_node_kind(self.pending_events(), k, false) + count_block_kind(w, k, false)
            } by {
                let d = sched_arena_contents(*nodes)[k];
                let d0 = nodes0[k];
                assert(present.contains(k));
                assert(nodes0.contains_key(k));
                assert(s0 =~= s0.take(ne) + s0.subrange(ne, len as int));
                lemma_count_node_append(s0.take(ne), s0.subrange(ne, len as int), k, true);
                lemma_count_node_append(s0.take(ne), s0.subrange(ne, len as int), k, false);
                if d.num_scheduled_events_this_block == 0 {
                    lemma_count_node_zero_prefix(s0.take(ne), k, true);
                    lemma_count_node_zero_prefix(s0.take(ne), k, false);
                    assert(self.node_window(d) =~= Seq::<(u32, Option<NodeEvent<E>>, i64)>::empty());
                } else {
                    let f = d.first_sorted_event_index as int;
                    let w = self.node_window(d);
                    assert(s0.take(ne) =~= s0.take(f) + s0.subrange(f, ne));
                    lemma_count_node_append(s0.take(f), s0.subrange(f, ne), k, true);
                    lemma_count_node_append(s0.take(f), s0.subrange(f, ne), k, false);
                    lemma_count_node_zero_prefix(s0.take(f), k, true);
                    lemma_count_node_zero_prefix(s0.take(f), k, false);
                    assert forall|j: int| 0 <= j < w.len() implies block_entry_matches(#[trigger] w[j], s0.subrange(f, ne)[j], k) by {
                        assert(w[j] == self.block_events()[f + j]);
                        assert(self.block_events()[f + j] == (old_sorted[f + j].0, arena[old_sorted[f + j].0 as int], old_sorted[f + j].1));
                    }
                    lemma_count_block_matches(w, s0.subrange(f, ne), k, true);
                    lemma_count_block_matches(w, s0.subrange(f, ne), k, false);
                }
            }
        }
    }
    /// Whether a node's immediate-event records agree with the immediate
    /// event buffer: its count is the number of its entries there, and its
    /// clump list holds where the first runs (up to eight) of its entries
    /// start.
    pub open spec fn imm_agrees(&self, k: u64, d: NodeEventSchedulerData) -> bool {
        let m = imm_mask(self.immediate_events(), k);
        let st = run_starts_upto(m, m.len() as int);
        let c = clump_contents(d.immediate_event_clump_indices);
        &&& d.num_immediate_events == marked_upto(m, m.len() as int).len()
        &&& c.len() == (if st.len() < 8 { st.len() } else { 8 })
        &&& forall|j: int| 0 <= j < c.len() ==> c[j] as int == #[trigger] st[j]
    }

    /// Whether the immediate-event records of every node of `nodes` agree
    /// with the buffer.
    pub open spec fn imm_all_agree(&self, nodes: Map<u64, NodeEventSchedulerData>) -> bool {
        forall|k: u64| #[trigger] nodes.contains_key(k) ==> self.imm_agrees(k, nodes[k])
    }

    /// A node's immediate events: the indices of its entries in the
    /// immediate event buffer, in order.
    pub open spec fn node_immediate(&self, k: u64) -> Seq<NodeEventListIndex> {
        let m = imm_mask(self.immediate_events(), k);
        imm_list(marked_upto(m, m.len() as int))
    }

    /// Hands out the immediate events of a node, clump by clump: each
    /// recorded clump start, then the node's events after it up to the end
    /// of that clump (an entry that is not one of the node's events), or, for
    /// the last recorded clump, up to the end of the buffer. It stops once
    /// the node's count of immediate events is used up. The clump records
    /// are then cleared. Where the node's records agree with the buffer,
    /// these are exactly the node's entries, in order.
    #[verifier::rlimit(40)]
    fn collect_immediate(&self, node: u64, d: &mut NodeEventSchedulerData) -> (r: Vec<NodeEventListIndex>)
        requires
            self.immediate_event_buffer@.len() <= u32::MAX,
        ensures
            clump_contents(final(d).immediate_event_clump_indices).len() == 0,
            r@.len() <= old(d).num_immediate_events,
            final(d).num_immediate_events == old(d).num_immediate_events - r@.len(),
            clump_contents(old(d).immediate_event_clump_indices).len() == 0 ==> r@.len() == 0,
            forall|i: int| 0 <= i < r@.len() ==> #[trigger] r@[i] is Immediate,
            final(d).num_scheduled_musical_events == old(d).num_scheduled_musical_events,
            final(d).num_scheduled_non_musical_events == old(d).num_scheduled_non_musical_events,
            final(d).num_scheduled_events_this_block == old(d).num_scheduled_events_this_block,
            final(d).first_sorted_event_index == old(d).first_sorted_event_index,
            self.imm_agrees(node, *old(d)) ==> r@ == self.node_immediate(node),
    {
        let ghost agrees = self.imm_agrees(node, *d);
        let ghost m = imm_mask(self.immediate_event_buffer@, node);
        let ghost n = m.len() as int;
        let ghost st = run_starts_upto(m, n);
        let ghost full = marked_upto(m, n);
        let ghost mut oi: Seq<int> = Seq::empty();
        let n_clumps = clumps_len(&d.immediate_event_clump_indices);
        let buf_len = self.immediate_event_buffer.len();
        proof {
            lemma_starts_props(m, n);
            lemma_marked_props(m, n);
            lemma_nothing_before_first_run(m, n);
            if agrees {
                if st.len() > 0 {
                    lemma_marked_gap(m, 0, st[0]);
                } else {
                    lemma_marked_gap(m, 0, n);
                }
                assert(marked_upto(m, 0) =~= Seq::<int>::empty());
            }
            assert(imm_list(oi) =~= Seq::<NodeEventListIndex>::empty());
        }
        let mut out: Vec<NodeEventListIndex> = Vec::new();
        let mut c: usize = 0;
        while c < n_clumps
            invariant
                n_clumps == clump_contents(old(d).immediate_event_clump_indices).len(),
                d.immediate_event_clump_indices == old(d).immediate_event_clump_indices,
                buf_len == self.immediate_event_buffer@.len(),
                buf_len <= u32::MAX,
                c <= n_clumps,
                n_clumps == 0 ==> out@.len() == 0,
                out@.len() <= old(d).num_immediate_events,
                d.num_immediate_events == old(d).num_immediate_events - out@.len(),
                forall|i: int| 0 <= i < out@.len() ==> #[trigger] out@[i] is Immediate,
                d.num_scheduled_musical_events == old(d).num_scheduled_musical_events,
                d.num_scheduled_non_musical_events == old(d).num_scheduled_non_musical_events,
                d.num_scheduled_events_this_block == old(d).num_scheduled_events_this_block,
                d.first_sorted_event_index == old(d).first_sorted_event_index,
                m == imm_mask(self.immediate_event_buffer@, node),
                n == buf_len,
                st == run_starts_upto(m, n),
                full == marked_upto(m, n),
                agrees == self.imm_agrees(node, *old(d)),
                out@ == imm_list(oi),
                forall|j: int| 0 <= j < st.len() ==> 0 <= #[trigger] st[j] < n && is_run_start(m, st[j]),
                forall|a: int, b: int| 0 <= a < b < st.len() ==> #[trigger] st[a] < #[trigger] st[b],
                agrees ==> {
                    &&& old(d).num_immediate_events == full.len()
                    &&& n_clumps <= st.len()
                    &&& forall|j: int| 0 <= j < n_clumps ==> clump_contents(old(d).immediate_event_clump_indices)[j] as int
                        == #[trigger] st[j]
                    &&& (n_clumps < st.len() ==> n_clumps == 8)
                    &&& (d.num_immediate_events == 0 ==> oi == full)
                    &&& (d.num_immediate_events > 0 ==> c < n_clumps && oi == marked_upto(m, st[c as int]))
                },
            ensures
                agrees ==> oi == full,
                out@ == imm_list(oi),
                n_clumps == 0 ==> out@.len() == 0,
                out@.len() <= old(d).num_immediate_events,
                d.num_immediate_events == old(d).num_immediate_events - out@.len(),
                forall|i: int| 0 <= i < out@.len() ==> #[trigger] out@[i] is Immediate,
                d.immediate_event_clump_indices == old(d).immediate_event_clump_indices,
                d.num_scheduled_musical_events == old(d).num_scheduled_musical_events,
                d.num_scheduled_non_musical_events == old(d).num_scheduled_non_musical_events,
                d.num_scheduled_events_this_block == old(d).num_scheduled_events_this_block,
                d.first_sorted_event_index == old(d).first_sorted_event_index,
            decreases n_clumps - c,
        {
            if d.num_immediate_events == 0 {
                break;
            }
            let start = clumps_get(&d.immediate_event_clump_indices, c);
            out.push(NodeEventListIndex::Immediate(start));
            proof {
                oi = oi.push(start as int);
                assert(out@ =~= imm_list(oi));
                if agrees {
                    assert(start as int == st[c as int]);
                    assert(marked_upto(m, start + 1) == marked_upto(m, start as int).push(start as int));
                    lemma_marked_prefix(m, start + 1, n);
                }
            }
            d.num_immediate_events = d.num_immediate_events - 1;
            if d.num_immediate_events == 0 {
                proof {
                    if agrees {
                        assert(full.take(oi.len() as int) == oi);
                        assert(oi =~= full);
                    }
                }
                break;
            }
            let is_last = c + 1 == n_clumps;
            let mut p: usize = if (start as usize) < buf_len {
                start as usize + 1
            } else {
                buf_len
            };
            while p < buf_len
                invariant_except_break
                    d.num_immediate_events > 0,
                    agrees ==> {
                        &&& old(d).num_immediate_events == full.len()
                        &&& n_clumps <= st.len()
                        &&& (n_clumps < st.len() ==> n_clumps == 8)
                        &&& start as int == st[c as int]
                        &&& start < p <= n
                        &&& oi == marked_upto(m, p as int)
                        &&& (!is_last ==> p <= st[c + 1])
                        &&& (!is_last ==> forall|t: int| start <= t < p ==> #[trigger] m[t])
                        &&& (d.num_immediate_events == 0 ==> oi == full)
                    },
                invariant
                    buf_len == self.immediate_event_buffer@.len(),
                    buf_len <= u32::MAX,
                    out@.len() <= old(d).num_immediate_events,
                    d.num_immediate_events == old(d).num_immediate_events - out@.len(),
                    forall|i: int| 0 <= i < out@.len() ==> #[trigger] out@[i] is Immediate,
                    d.immediate_event_clump_indices == old(d).immediate_event_clump_indices,
                    d.num_scheduled_musical_events == old(d).num_scheduled_musical_events,
                    d.num_scheduled_non_musical_events == old(d).num_scheduled_non_musical_events,
                    d.num_scheduled_events_this_block == old(d).num_scheduled_events_this_block,
                    d.first_sorted_event_index == old(d).first_sorted_event_index,
                    m == imm_mask(self.immediate_event_buffer@, node),
                    n == buf_len,
                    st == run_starts_upto(m, n),
                    full == marked_upto(m, n),
                    agrees == self.imm_agrees(node, *old(d)),
                    out@ == imm_list(oi),
                    c < n_clumps,
                    is_last == (c + 1 == n_clumps),
                    forall|j: int| 0 <= j < st.len() ==> 0 <= #[trigger] st[j] < n && is_run_start(m, st[j]),
                    forall|a: int, b: int| 0 <= a < b < st.len() ==> #[trigger] st[a] < #[trigger] st[b],
                ensures
                    agrees ==> {
                        ||| d.num_immediate_events == 0 && oi == full
                        ||| d.num_immediate_events > 0 && !is_last && oi == marked_upto(m, st[c + 1])
                    },
                    out@ == imm_list(oi),
                    d.num_immediate_events == old(d).num_immediate_events - out@.len(),
                    out@.len() <= old(d).num_immediate_events,
                    forall|i: int| 0 <= i < out@.len() ==> #[trigger] out@[i] is Immediate,
                    d.immediate_event_clump_indices == old(d).immediate_event_clump_indices,
                    d.num_scheduled_musical_events == old(d).num_scheduled_musical_events,
                    d.num_scheduled_non_musical_events == old(d).num_scheduled_non_musical_events,
                    d.num_scheduled_events_this_block == old(d).num_scheduled_events_this_block,
                    d.first_sorted_event_index == old(d).first_sorted_event_index,
                decreases buf_len - p,
            {
                let is_mine = match &self.immediate_event_buffer[p] {
                    Some(e) => e.node_id.0 == node,
                    None => false,
                };
                proof {
                    assert(is_mine == m[p as int]);
                    if agrees && !is_last && is_mine {
                        assert(p < st[c + 1]) by {
                            if p as int == st[c + 1] {
                                assert(m[p - 1]);
                            }
                        }
                    }
                }
                if is_mine {
                    out.push(NodeEventListIndex::Immediate(p as u32));
                    proof {
                        oi = oi.push(p as int);
                        assert(out@ =~= imm_list(oi));
                        if agrees {
                            assert(marked_upto(m, p + 1) == marked_upto(m, p as int).push(p as int));
                            lemma_marked_prefix(m, p + 1, n);
                        }
                    }
                    d.num_immediate_events = d.num_immediate_events - 1;
                    if d.num_immediate_events == 0 {
                        proof {
                            if agrees {
                                assert(full.take(oi.len() as int) == oi);
                                assert(oi =~= full);
                            }
                        }
                        break;
                    }
                } else if !is_last {
                    proof {
                        if agrees {
                            lemma_nothing_between_runs(m, n, c as int, p as int);
                            lemma_marked_gap(m, p as int, st[c + 1]);
                        }
                    }
                    break;
                }
                p = p + 1;
            }
            proof {
                if agrees && d.num_immediate_events > 0 {
                    assert(c + 1 < n_clumps);
                }
            }
            c = c + 1;
        }
        clumps_clear(&mut d.immediate_event_clump_indices);
        proof {
            if agrees {
                assert(oi == full);
                assert(out@ == self.node_immediate(node));
            }
        }
        out
    }
    /// The per-node part of [`Self::block_agrees`].
    pub open spec fn node_block_agrees(&self, k: u64, d: NodeEventSchedulerData) -> bool {
        let w = self.node_window(d);
        &&& (d.num_scheduled_events_this_block > 0 ==> d.first_sorted_event_index <= self.block_events().len())
        &&& d.num_scheduled_events_this_block == count_block_kind(w, k, true) + count_block_kind(w, k, false)
        &&& d.num_scheduled_musical_events == count_node_kind(self.pending_events(), k, true) + count_block_kind(w, k, true)
        &&& d.num_scheduled_non_musical_events == count_node_kind(self.pending_events(), k, false) + count_block_kind(w, k, false)
    }

    /// Hands a node the scheduled events of the sub-chunk that starts at
    /// `frames_processed`: those of its elapsed events due by then, scanning
    /// the sorted list from `sorted_i`. Stops at the first of its events due
    /// later, which ends the sub-chunk there (`upcoming`), or once none is
    /// left, in which case the sub-chunk runs to the end of the block.
    #[verifier::rlimit(60)]
    #[verifier::spinoff_prover]
    fn scan_sub_chunk(
        &self,
        node_id: NodeID,
        node_data: &mut NodeEventSchedulerData,
        sorted_i: &mut usize,
        queue: &mut Vec<NodeEventListIndex>,
        frames_processed: usize,
        sub_clock_samples: i64,
        block_frames: usize,
        clock_samples: i64,
        Ghost(d0): Ghost<NodeEventSchedulerData>,
        Ghost(c0): Ghost<int>,
    ) -> (r: (usize, Option<u32>, Ghost<int>))
        requires
            frames_processed < block_frames,
            block_frames <= i64::MAX,
            self.wf(),
            ({
                let k = node_id.0;
                let block = self.block_events();
                let ne = block.len() as int;
                let pend = self.pending_events();
                let win = self.node_window(d0);
                let w = node_entries(win, k);
                let first = d0.first_sorted_event_index as int;
                let scanning = d0.num_scheduled_events_this_block > 0;
                let si = *old(sorted_i) as int;
                &&& scanning ==> win == block.subrange(first, ne)
                &&& forall|i: int| 0 <= i < ne ==> (#[trigger] block[i]).2 < clock_samples + block_frames
                &&& forall|a: int, b: int| 0 <= a <= b < w.len() ==> (#[trigger] w[a]).1 <= (#[trigger] w[b]).1
                &&& forall|i: int| 0 <= i < w.len() ==> exists|j: int| 0 <= j < win.len() && (#[trigger] w[i]).0 == win[j].0 && w[i].1 == win[j].2
                &&& frames_processed < block_frames
                &&& sub_clock_samples == clock_samples + frames_processed
                &&& clock_samples + block_frames <= i64::MAX
                &&& 0 <= c0 <= w.len()
                &&& sub_chunk_starts(w.take(c0), clock_samples).last() == frames_processed
                &&& old(node_data).num_scheduled_events_this_block == w.len() - c0
                &&& (scanning ==> first <= si <= ne)
                &&& (scanning ==> node_entries(block.subrange(first, si), k) == w.take(c0))
                &&& (scanning ==> node_entries(block.subrange(si, ne), k) == w.skip(c0))
                &&& (!scanning ==> c0 == 0 && w.len() == 0)
                &&& old(node_data).num_scheduled_musical_events == count_node_kind(pend, k, true) + (if scanning {
                    count_block_kind(block.subrange(si, ne), k, true)
                } else {
                    0
                })
                &&& old(node_data).num_scheduled_non_musical_events == count_node_kind(pend, k, false) + (if scanning {
                    count_block_kind(block.subrange(si, ne), k, false)
                } else {
                    0
                })
                &&& (c0 > 0 ==> sub_chunk_offset(w[c0 - 1].1, clock_samples) == frames_processed)
                &&& old(queue)@ == sub_chunk_events(w.take(c0), clock_samples, frames_processed as int)
            }),
        ensures
            0 < r.0 <= block_frames - frames_processed,
            ({
                let k = node_id.0;
                let block = self.block_events();
                let ne = block.len() as int;
                let pend = self.pending_events();
                let win = self.node_window(d0);
                let w = node_entries(win, k);
                let first = d0.first_sorted_event_index as int;
                let scanning = d0.num_scheduled_events_this_block > 0;
                let si = *final(sorted_i) as int;
                let c = r.2@;
                let st0 = sub_chunk_starts(w.take(c0), clock_samples);
                &&& c0 <= c <= w.len()
                &&& final(node_data).num_scheduled_events_this_block == w.len() - c
                &&& (scanning ==> first <= si <= ne)
                &&& (scanning ==> node_entries(block.subrange(first, si), k) == w.take(c))
                &&& (scanning ==> node_entries(block.subrange(si, ne), k) == w.skip(c))
                &&& (!scanning ==> c == 0)
                &&& final(node_data).num_scheduled_musical_events == count_node_kind(pend, k, true) + (if scanning {
                    count_block_kind(block.subrange(si, ne), k, true)
                } else {
                    0
                })
                &&& final(node_data).num_scheduled_non_musical_events == count_node_kind(pend, k, false) + (if scanning {
                    count_block_kind(block.subrange(si, ne), k, false)
                } else {
                    0
                })
                &&& final(node_data).num_immediate_events == old(node_data).num_immediate_events
                &&& final(node_data).immediate_event_clump_indices == old(node_data).immediate_event_clump_indices
                &&& final(queue)@ == sub_chunk_events(w.take(c), clock_samples, frames_processed as int)
                &&& (r.1 is None ==> {
                    &&& c == w.len()
                    &&& r.0 == block_frames - frames_processed
                    &&& sub_chunk_starts(w.take(c), clock_samples) == st0
                })
                &&& (r.1 matches Some(u) ==> {
                    &&& forall|i: int| 0 <= i < c - 1 ==> sub_chunk_offset((#[trigger] w[i]).1, clock_samples) <= frames_processed
                    &&& c > c0
                    &&& w[c - 1].0 == u
                    &&& sub_chunk_offset(w[c - 1].1, clock_samples) > frames_processed
                    &&& sub_chunk_offset(w[c - 1].1, clock_samples) == frames_processed + r.0
                    &&& r.0 < block_frames - frames_processed
                    &&& r.0 > 0
                    &&& sub_chunk_starts(w.take(c), clock_samples) == st0.push(sub_chunk_offset(w[c - 1].1, clock_samples))
                })
            }),
    {
        let ghost k = node_id.0;
        let ghost block = self.block_events();
        let ghost ne = block.len() as int;
        let ghost pend = self.pending_events();
        let ghost win = self.node_window(d0);
        let ghost w = node_entries(win, k);
        let ghost first = d0.first_sorted_event_index as int;
        let ghost scanning = d0.num_scheduled_events_this_block > 0;
        let ghost st0 = sub_chunk_starts(w.take(c0), clock_samples);
        let ghost mut c: int = c0;
        let mut sub_chunk_frames: usize = block_frames - frames_processed;
        let mut upcoming: Option<u32> = None;
        proof {
            assert forall|i: int| 0 <= i < c implies sub_chunk_offset((#[trigger] w[i]).1, clock_samples) <= frames_processed by {
                assert(w[i].1 <= w[c - 1].1);
            }
        }
        while node_data.num_scheduled_events_this_block > 0
            invariant_except_break
                upcoming is None,
                sub_chunk_frames == block_frames - frames_processed,
                c > 0 ==> sub_chunk_offset(w[c - 1].1, clock_samples) == frames_processed,
                sub_chunk_starts(w.take(c), clock_samples) == st0,
                forall|i: int| 0 <= i < c ==> sub_chunk_offset((#[trigger] w[i]).1, clock_samples) <= frames_processed,
            invariant
                self.wf(),
                k == node_id.0,
                block == self.block_events(),
                ne == block.len(),
                pend == self.pending_events(),
                win == self.node_window(d0),
                w == node_entries(win, k),
                first == d0.first_sorted_event_index,
                scanning == (d0.num_scheduled_events_this_block > 0),
                scanning ==> win == block.subrange(first, ne),
                forall|i: int| 0 <= i < ne ==> (#[trigger] block[i]).2 < clock_samples + block_frames,
                forall|a: int, b: int| 0 <= a <= b < w.len() ==> (#[trigger] w[a]).1 <= (#[trigger] w[b]).1,
                forall|i: int| 0 <= i < w.len() ==> exists|j: int| 0 <= j < win.len() && (#[trigger] w[i]).0 == win[j].0 && w[i].1 == win[j].2,
                frames_processed < block_frames,
                sub_clock_samples == clock_samples + frames_processed,
                clock_samples + block_frames <= i64::MAX,
                block_frames <= i64::MAX,
                0 <= c0 <= c <= w.len(),
                st0 == sub_chunk_starts(w.take(c0), clock_samples),
                st0.last() == frames_processed,
                node_data.num_scheduled_events_this_block == w.len() - c,
                scanning ==> first <= *sorted_i <= ne,
                scanning ==> node_entries(block.subrange(first, *sorted_i as int), k) == w.take(c),
                scanning ==> node_entries(block.subrange(*sorted_i as int, ne), k) == w.skip(c),
                !scanning ==> c == 0 && w.len() == 0,
                node_data.num_scheduled_musical_events == count_node_kind(pend, k, true) + (if scanning {
                    count_block_kind(block.subrange(*sorted_i as int, ne), k, true)
                } else {
                    0
                }),
                node_data.num_scheduled_non_musical_events == count_node_kind(pend, k, false) + (if scanning {
                    count_block_kind(block.subrange(*sorted_i as int, ne), k, false)
                } else {
                    0
                }),
                node_data.num_immediate_events == old(node_data).num_immediate_events,
                node_data.immediate_event_clump_indices == old(node_data).immediate_event_clump_indices,
                queue@ == sub_chunk_events(w.take(c), clock_samples, frames_processed as int),
            ensures
                upcoming is None ==> c == w.len() && sub_chunk_frames == block_frames - frames_processed
                    && sub_chunk_starts(w.take(c), clock_samples) == st0,
                upcoming matches Some(u) ==> {
                    &&& forall|i: int| 0 <= i < c - 1 ==> sub_chunk_offset((#[trigger] w[i]).1, clock_samples) <= frames_processed
                    &&& c > c0
                    &&& w[c - 1].0 == u
                    &&& sub_chunk_offset(w[c - 1].1, clock_samples) > frames_processed
                    &&& sub_chunk_offset(w[c - 1].1, clock_samples) == frames_processed + sub_chunk_frames
                    &&& sub_chunk_frames < block_frames - frames_processed
                    &&& sub_chunk_frames > 0
                    &&& sub_chunk_starts(w.take(c), clock_samples) == st0.push(sub_chunk_offset(w[c - 1].1, clock_samples))
                },
            decreases ne - *sorted_i,
        {
            proof {
                assert(scanning);
                assert(c0 <= c);
                assert(c <= w.len());
                assert(w.skip(c).len() == w.len() - c);
                assert(w.skip(c).len() > 0);
                if *sorted_i as int == ne {
                    assert(block.subrange(*sorted_i as int, ne) =~= Seq::<(u32, Option<NodeEvent<E>>, i64)>::empty());
                    assert(node_entries(Seq::<(u32, Option<NodeEvent<E>>, i64)>::empty(), k) =~= Seq::<(u32, i64)>::empty());
                }
                assert(block.subrange(*sorted_i as int, ne) =~= seq![block[*sorted_i as int]] + block.subrange(*sorted_i + 1, ne));
                lemma_node_entries_split(seq![block[*sorted_i as int]], block.subrange(*sorted_i + 1, ne), k);
                assert(block.subrange(first, *sorted_i + 1) =~= block.subrange(first, *sorted_i as int) + seq![block[*sorted_i as int]]);
                lemma_node_entries_split(block.subrange(first, *sorted_i as int), seq![block[*sorted_i as int]], k);
                assert(seq![block[*sorted_i as int]].drop_last() =~= Seq::<(u32, Option<NodeEvent<E>>, i64)>::empty());
                assert(node_entries(Seq::<(u32, Option<NodeEvent<E>>, i64)>::empty(), k) =~= Seq::<(u32, i64)>::empty());
                assert(block.subrange(*sorted_i as int, ne).subrange(1, ne - *sorted_i) =~= block.subrange(*sorted_i + 1, ne));
                lemma_count_block_matches_split(block.subrange(*sorted_i as int, ne), k);
                assert(block.subrange(*sorted_i as int, ne)[0] == block[*sorted_i as int]);
            }
            let (slot, time_samples) = self.sorted_event_buffer_indices[*sorted_i];
            let (is_mine, is_musical) = match &self.scheduled_event_arena[slot as usize] {
                Some(e) => {
                    let m = match e.time {
                        Some(t) => t.kind == EventTimeKind::Musical,
                        None => false,
                    };
                    (e.node_id.0 == node_id.0, m)
                },
                None => (false, false),
            };
            let ghost entry = block[*sorted_i as int];
            proof {
                assert(entry == (slot, self.scheduled_event_arena@[slot as int], time_samples));
                assert(is_mine == (entry.1 matches Some(e) && e.node_id.0 == k));
                assert(is_mine ==> is_musical == is_musical_event(entry.1->0));
                assert(seq![entry].drop_last() =~= Seq::<(u32, Option<NodeEvent<E>>, i64)>::empty());
                assert(count_block_kind(Seq::<(u32, Option<NodeEvent<E>>, i64)>::empty(), k, true) == 0);
                assert(count_block_kind(Seq::<(u32, Option<NodeEvent<E>>, i64)>::empty(), k, false) == 0);
            }
            *sorted_i = *sorted_i + 1;
            if !is_mine {
                proof {
                    assert(node_entries(seq![entry], k) =~= Seq::<(u32, i64)>::empty());
                    assert(node_entries(block.subrange(first, *sorted_i as int), k) =~= w.take(c));
                    assert(node_entries(block.subrange(*sorted_i as int, ne), k) =~= w.skip(c));
                }
                continue;
            }
            proof {
                assert(node_entries(seq![entry], k) =~= seq![(slot, time_samples)]);
                assert(w.skip(c) =~= seq![(slot, time_samples)] + node_entries(block.subrange(*sorted_i as int, ne), k));
                assert(w[c] == w.skip(c)[0]);
                assert(w[c] == (slot, time_samples));
                assert(w.take(c + 1) =~= w.take(c).push(w[c]));
                assert(node_entries(block.subrange(first, *sorted_i as int), k) =~= w.take(c + 1));
                assert(w.skip(c + 1) =~= w.skip(c).subrange(1, w.skip(c).len() as int));
                assert(node_entries(block.subrange(*sorted_i as int, ne), k) =~= w.skip(c + 1));
                assert(w.take(c + 1).drop_last() =~= w.take(c));
                let j = choose|j: int| 0 <= j < win.len() && w[c].0 == win[j].0 && w[c].1 == win[j].2;
                assert(win[j] == block[first + j]);
                assert(time_samples < clock_samples + block_frames);
                if c > 0 {
                    assert(w[c - 1].1 <= w[c].1);
                }
            }
            node_data.num_scheduled_events_this_block = node_data.num_scheduled_events_this_block - 1;
            if is_musical {
                node_data.num_scheduled_musical_events = node_data.num_scheduled_musical_events - 1;
            } else {
                node_data.num_scheduled_non_musical_events = node_data.num_scheduled_non_musical_events - 1;
            }
            if time_samples <= sub_clock_samples {
                queue.push(NodeEventListIndex::Scheduled(slot));
                proof {
                    let pr = |x: (u32, i64)| sub_chunk_offset(x.1, clock_samples) == frames_processed as int;
                    if c > 0 {
                        assert(sub_chunk_offset(w[c].1, clock_samples) >= sub_chunk_offset(w[c - 1].1, clock_samples));
                    }
                    assert(pr(w[c]));
                    w.take(c).lemma_filter_push(w[c], pr);
                    assert(sub_chunk_events(w.take(c + 1), clock_samples, frames_processed as int) =~= sub_chunk_events(
                        w.take(c),
                        clock_samples,
                        frames_processed as int,
                    ).push(NodeEventListIndex::Scheduled(slot)));
                    c = c + 1;
                }
            } else {
                let gap = (time_samples - sub_clock_samples) as usize;
                if gap < sub_chunk_frames {
                    sub_chunk_frames = gap;
                }
                upcoming = Some(slot);
                proof {
                    let pr = |x: (u32, i64)| sub_chunk_offset(x.1, clock_samples) == frames_processed as int;
                    assert(w.take(c + 1).drop_last() =~= w.take(c));
                    assert(w.take(c + 1).last() == w[c]);
                    assert(!pr(w[c]));
                    w.take(c).lemma_filter_push(w[c], pr);
                    assert(sub_chunk_events(w.take(c + 1), clock_samples, frames_processed as int) =~= sub_chunk_events(
                        w.take(c),
                        clock_samples,
                        frames_processed as int,
                    ));
                    c = c + 1;
                }
                break;
            }
        }
        proof {
            if upcoming is Some {
                assert(w.take(c).drop_last() =~= w.take(c - 1));
            }
        }
        (sub_chunk_frames, upcoming, Ghost(c))
    }

    /// Plans how a node processes this block. The block (of `block_frames`
    /// frames starting at `clock_samples`) is cut into sub-chunks at each
    /// time one of the node's elapsed scheduled events is due: the first
    /// sub-chunk starts with the block, and each event is handed to the
    /// sub-chunk that starts at the frame it is due at (at the block's
    /// start for one that was due earlier). The node's immediate events go
    /// to the first sub-chunk, after its scheduled ones: where the node's
    /// records agree with the immediate event buffer (see
    /// [`Self::imm_agrees`]), exactly its entries there, in the order they
    /// were queued. The node's counts are brought down by the events handed
    /// out.
    #[verifier::rlimit(80)]
    #[verifier::spinoff_prover]
    pub fn process_node(
        &self,
        node_id: NodeID,
        node_data: &mut NodeEventSchedulerData,
        block_frames: usize,
        clock_samples: i64,
    ) -> (plan: Vec<SubChunk>)
        requires
            self.wf(),
            self.node_block_agrees(node_id.0, *old(node_data)),
            forall|i: int| 0 <= i < self.block_events().len() ==> (#[trigger] self.block_events()[i]).2 < clock_samples + block_frames,
            forall|a: int, b: int| 0 <= a <= b < self.block_events().len() ==> (#[trigger] self.block_events()[a]).2
                <= (#[trigger] self.block_events()[b]).2,
            clock_samples + block_frames <= i64::MAX,
            block_frames <= i64::MAX,
            block_frames > 0 || old(node_data).num_scheduled_events_this_block == 0,
            self.immediate_events().len() <= u32::MAX,
        ensures
            ({
                let w = node_entries(self.node_window(*old(node_data)), node_id.0);
                let st = sub_chunk_starts(w, clock_samples);
                &&& block_frames == 0 ==> plan@.len() == 0
                &&& block_frames > 0 ==> plan@.len() == st.len()
                &&& forall|j: int| 0 <= j < plan@.len() ==> {
                    let c = #[trigger] plan@[j];
                    &&& c.start == st[j]
                    &&& c.end == (if j + 1 < st.len() { st[j + 1] } else { block_frames as int })
                    &&& c.sub_clock_samples == clock_samples + st[j]
                    &&& j > 0 ==> c.events@ == sub_chunk_events(w, clock_samples, st[j])
                }
                &&& plan@.len() > 0 ==> {
                    let first = sub_chunk_events(w, clock_samples, 0);
                    &&& plan@[0].events@.len() == first.len() + (old(node_data).num_immediate_events - final(node_data).num_immediate_events)
                    &&& plan@[0].events@.subrange(0, first.len() as int) == first
                    &&& forall|i: int| first.len() <= i < plan@[0].events@.len() ==> #[trigger] plan@[0].events@[i] is Immediate
                    &&& self.imm_agrees(node_id.0, *old(node_data)) ==> plan@[0].events@.subrange(
                        first.len() as int,
                        plan@[0].events@.len() as int,
                    ) == self.node_immediate(node_id.0)
                }
            }),
            final(node_data).num_scheduled_events_this_block == 0,
            final(node_data).num_scheduled_musical_events == count_node_kind(self.pending_events(), node_id.0, true),
            final(node_data).num_scheduled_non_musical_events == count_node_kind(self.pending_events(), node_id.0, false),
            final(node_data).num_immediate_events <= old(node_data).num_immediate_events,
            block_frames > 0 ==> clump_contents(final(node_data).immediate_event_clump_indices).len() == 0,
    {
        let ghost k = node_id.0;
        let ghost d0 = *node_data;
        let ghost block = self.block_events();
        let ghost ne = block.len() as int;
        let ghost pend = self.pending_events();
        let ghost win = self.node_window(d0);
        let ghost w = node_entries(win, k);
        let ghost first = d0.first_sorted_event_index as int;
        let ghost scanning = d0.num_scheduled_events_this_block > 0;
        let mut sorted_i: usize = node_data.first_sorted_event_index;
        let mut sub_clock_samples: i64 = clock_samples;
        let mut frames_processed: usize = 0;
        let mut queue: Vec<NodeEventListIndex> = Vec::new();
        let mut plan: Vec<SubChunk> = Vec::new();
        let ghost mut c: int = 0;
        proof {
            lemma_node_entries_from(win, k);
            if scanning {
                assert(win == block.subrange(first, ne));
                assert(block.subrange(first, first) =~= Seq::<(u32, Option<NodeEvent<E>>, i64)>::empty());
                assert(w.take(0) =~= Seq::<(u32, i64)>::empty());
                assert(w.skip(0) =~= w);
                assert forall|a: int, b: int| 0 <= a <= b < win.len() implies (#[trigger] win[a]).2 <= (#[trigger] win[b]).2 by {
                    assert(win[a] == block[first + a]);
                    assert(win[b] == block[first + b]);
                }
            } else {
                assert(win =~= Seq::<(u32, Option<NodeEvent<E>>, i64)>::empty());
            }
            lemma_node_entries_len(win, k);
            assert(sub_chunk_starts(w.take(0), clock_samples) =~= seq![0int]) by {
                assert(w.take(0) =~= Seq::<(u32, i64)>::empty());
            }
            assert(sub_chunk_events(w.take(0), clock_samples, 0) =~= Seq::<NodeEventListIndex>::empty()) by {
                reveal(Seq::filter);
                assert(w.take(0) =~= Seq::<(u32, i64)>::empty());
            }
        }
        while frames_processed < block_frames
            invariant
                self.wf(),
                k == node_id.0,
                block == self.block_events(),
                ne == block.len(),
                pend == self.pending_events(),
                win == self.node_window(d0),
                w == node_entries(win, k),
                first == d0.first_sorted_event_index,
                scanning == (d0.num_scheduled_events_this_block > 0),
                scanning ==> win == block.subrange(first, ne),
                d0 == *old(node_data),
                forall|i: int| 0 <= i < ne ==> (#[trigger] block[i]).2 < clock_samples + block_frames,
                clock_samples + block_frames <= i64::MAX,
                block_frames <= i64::MAX,
                self.immediate_events().len() <= u32::MAX,
                forall|a: int, b: int| 0 <= a <= b < w.len() ==> (#[trigger] w[a]).1 <= (#[trigger] w[b]).1,
                forall|i: int| 0 <= i < w.len() ==> exists|j: int| 0 <= j < win.len() && (#[trigger] w[i]).0 == win[j].0 && w[i].1 == win[j].2,
                frames_processed <= block_frames,
                sub_clock_samples == clock_samples + frames_processed,
                0 <= c <= w.len(),
                node_data.num_scheduled_events_this_block == w.len() - c,
                scanning ==> first <= sorted_i <= ne,
                scanning ==> node_entries(block.subrange(first, sorted_i as int), k) == w.take(c),
                scanning ==> node_entries(block.subrange(sorted_i as int, ne), k) == w.skip(c),
                !scanning ==> c == 0 && w.len() == 0,
                node_data.num_scheduled_musical_events == count_node_kind(pend, k, true) + (if scanning {
                    count_block_kind(block.subrange(sorted_i as int, ne), k, true)
                } else {
                    0
                }),
                node_data.num_scheduled_non_musical_events == count_node_kind(pend, k, false) + (if scanning {
                    count_block_kind(block.subrange(sorted_i as int, ne), k, false)
                } else {
                    0
                }),
                node_data.num_immediate_events <= d0.num_immediate_events,
                frames_processed < block_frames ==> {
                    &&& sub_chunk_starts(w.take(c), clock_samples).last() == frames_processed
                    &&& plan@.len() + 1 == sub_chunk_starts(w.take(c), clock_samples).len()
                    &&& (c > 0 ==> sub_chunk_offset(w[c - 1].1, clock_samples) == frames_processed)
                    &&& queue@ == sub_chunk_events(w.take(c), clock_samples, frames_processed as int)
                    &&& (plan@.len() == 0 ==> node_data.num_immediate_events == d0.num_immediate_events)
                },
                block_frames == 0 ==> plan@.len() == 0,
                block_frames > 0 && frames_processed == block_frames ==> c == w.len() && plan@.len() == sub_chunk_starts(
                    w,
                    clock_samples,
                ).len(),
                plan@.len() > 0 ==> clump_contents(node_data.immediate_event_clump_indices).len() == 0,
                forall|j: int| 0 <= j < plan@.len() ==> {
                    let sc = #[trigger] plan@[j];
                    let st = sub_chunk_starts(w.take(c), clock_samples);
                    &&& sc.start == st[j]
                    &&& sc.end == (if j + 1 < st.len() { st[j + 1] } else { block_frames as int })
                    &&& sc.sub_clock_samples == clock_samples + st[j]
                    &&& j > 0 ==> sc.events@ == sub_chunk_events(w, clock_samples, st[j])
                },
                plan@.len() > 0 ==> {
                    let fe = sub_chunk_events(w, clock_samples, 0);
                    &&& plan@[0].events@.len() == fe.len() + (d0.num_immediate_events - node_data.num_immediate_events)
                    &&& plan@[0].events@.subrange(0, fe.len() as int) == fe
                    &&& forall|i: int| fe.len() <= i < plan@[0].events@.len() ==> #[trigger] plan@[0].events@[i] is Immediate
                    &&& self.imm_agrees(k, d0) ==> plan@[0].events@.subrange(fe.len() as int, plan@[0].events@.len() as int)
                        == self.node_immediate(k)
                },
                plan@.len() == 0 ==> node_data.immediate_event_clump_indices == d0.immediate_event_clump_indices
                    && node_data.num_immediate_events == d0.num_immediate_events,
            decreases block_frames - frames_processed,
        {
            let ghost c_start = c;
            let ghost st0 = sub_chunk_starts(w.take(c), clock_samples);
            let ghost imm_before = node_data.num_immediate_events;
            let ghost clumps_before = node_data.immediate_event_clump_indices;
            let (sub_chunk_frames, upcoming, Ghost(c1)) = self.scan_sub_chunk(
                node_id,
                node_data,
                &mut sorted_i,
                &mut queue,
                frames_processed,
                sub_clock_samples,
                block_frames,
                clock_samples,
                Ghost(d0),
                Ghost(c),
            );
            proof {
                c = c1;
            }
            let ghost pre_collect = *node_data;
            let imm = self.collect_immediate(node_id.0, node_data);
            let ghost qv = queue@;
            let mut events = queue;
            let mut q: usize = 0;
            proof {
                assert(events@.subrange(qv.len() as int, events@.len() as int) =~= imm@.subrange(0, 0));
            }
            while q < imm.len()
                invariant
                    events@.len() == qv.len() + q,
                    events@.subrange(0, qv.len() as int) == qv,
                    events@.subrange(qv.len() as int, events@.len() as int) == imm@.subrange(0, q as int),
                    q <= imm@.len(),
                    forall|i: int| 0 <= i < imm@.len() ==> #[trigger] imm@[i] is Immediate,
                    forall|i: int| qv.len() <= i < events@.len() ==> #[trigger] events@[i] is Immediate,
                decreases imm@.len() - q,
            {
                let ghost before = events@;
                events.push(imm[q]);
                proof {
                    assert(events@.subrange(0, qv.len() as int) =~= qv);
                    assert(events@.subrange(qv.len() as int, events@.len() as int) =~= imm@.subrange(0, q + 1)) by {
                        assert(before.subrange(qv.len() as int, before.len() as int) == imm@.subrange(0, q as int));
                    }
                }
                q = q + 1;
            }
            proof {
                assert(imm@.subrange(0, imm@.len() as int) =~= imm@);
                if plan@.len() == 0 && self.imm_agrees(k, d0) {
                    assert(self.imm_agrees(k, pre_collect));
                    assert(imm@ == self.node_immediate(k));
                }
            }
            let ghost fp = frames_processed as int;
            let sc = SubChunk {
                start: frames_processed,
                end: frames_processed + sub_chunk_frames,
                sub_clock_samples,
                events,
            };
            let ghost plan_before = plan@;
            plan.push(sc);
            queue = Vec::new();
            match upcoming {
                Some(slot) => {
                    queue.push(NodeEventListIndex::Scheduled(slot));
                },
                None => {},
            }
            frames_processed = frames_processed + sub_chunk_frames;
            sub_clock_samples = sub_clock_samples + sub_chunk_frames as i64;
            proof {
                let st = sub_chunk_starts(w.take(c), clock_samples);
                let pr = |x: (u32, i64)| sub_chunk_offset(x.1, clock_samples) == fp;
                lemma_starts_first(w.take(c_start), clock_samples);
                if plan_before.len() == 0 {
                    assert(fp == 0);
                }
                // The events of the finished sub-chunk are all of `w`'s events at its start.
                assert(qv == sub_chunk_events(w, clock_samples, fp)) by {
                    match upcoming {
                        Some(u) => {
                            assert(w =~= w.take(c - 1) + w.skip(c - 1));
                            assert forall|i: int| 0 <= i < w.skip(c - 1).len() implies !pr(#[trigger] w.skip(c - 1)[i]) by {
                                assert(w.skip(c - 1)[i] == w[c - 1 + i]);
                                assert(w[c - 1].1 <= w[c - 1 + i].1);
                            }
                            lemma_filter_none(w.skip(c - 1), pr);
                            Seq::filter_distributes_over_add(w.take(c - 1), w.skip(c - 1), pr);
                            assert(w.take(c - 1).filter(pr) + Seq::<(u32, i64)>::empty() =~= w.take(c - 1).filter(pr));
                            assert(w.take(c) =~= w.take(c - 1).push(w[c - 1]));
                            w.take(c - 1).lemma_filter_push(w[c - 1], pr);
                        },
                        None => {
                            assert(w.take(c) =~= w);
                        },
                    }
                }
                match upcoming {
                    Some(u) => {
                        let o = sub_chunk_offset(w[c - 1].1, clock_samples);
                        assert(st == st0.push(o));
                        assert(frames_processed == o);
                        let pr2 = |x: (u32, i64)| sub_chunk_offset(x.1, clock_samples) == o;
                        assert forall|i: int| 0 <= i < w.take(c - 1).len() implies !pr2(#[trigger] w.take(c - 1)[i]) by {
                            assert(w.take(c - 1)[i] == w[i]);
                            assert(sub_chunk_offset(w[i].1, clock_samples) <= fp);
                        }
                        lemma_filter_none(w.take(c - 1), pr2);
                        assert(w.take(c) =~= w.take(c - 1).push(w[c - 1]));
                        w.take(c - 1).lemma_filter_push(w[c - 1], pr2);
                        assert(queue@ =~= sub_chunk_events(w.take(c), clock_samples, o));
                        assert(st.last() == o);
                    },
                    None => {
                        assert(w.take(c) =~= w);
                        assert(frames_processed == block_frames);
                    },
                }
                assert forall|j: int| 0 <= j < plan@.len() implies {
                    let sc = #[trigger] plan@[j];
                    &&& sc.start == st[j]
                    &&& sc.end == (if j + 1 < st.len() { st[j + 1] } else { block_frames as int })
                    &&& sc.sub_clock_samples == clock_samples + st[j]
                    &&& j > 0 ==> sc.events@ == sub_chunk_events(w, clock_samples, st[j])
                } by {
                    if j < plan_before.len() {
                        assert(plan@[j] == plan_before[j]);
                        assert(st[j] == st0[j]);
                        assert(st[j + 1] == st0[j + 1]);
                    }
                }
            }
        }
        proof {
            lemma_starts_first(w, clock_samples);
            if block_frames > 0 {
                assert(c == w.len());
                assert(w.take(c) =~= w);
                let st = sub_chunk_starts(w, clock_samples);
                assert forall|j: int| 0 <= j < plan@.len() implies {
                    let sc = #[trigger] plan@[j];
                    &&& sc.start == st[j]
                    &&& sc.end == (if j + 1 < st.len() { st[j + 1] } else { block_frames as int })
                    &&& sc.sub_clock_samples == clock_samples + st[j]
                    &&& j > 0 ==> sc.events@ == sub_chunk_events(w, clock_samples, st[j])
                } by {
                    assert(sub_chunk_starts(w.take(c), clock_samples) == st);
                }
            }
            lemma_node_entries_len(block.subrange(sorted_i as int, ne), k);
            if scanning {
                assert(w.skip(c) =~= Seq::<(u32, i64)>::empty());
            }
        }
        plan
    }
    /// Whether the node has scheduled events that it has not handled.
    pub fn node_has_scheduled_events(&self, node_data: &NodeEventSchedulerData) -> (r: bool)
        ensures
            r == (node_data.num_scheduled_musical_events > 0 || node_data.num_scheduled_non_musical_events > 0),
    {
        node_data.num_scheduled_musical_events > 0 || node_data.num_scheduled_non_musical_events > 0
    }

    /// Empties the immediate event buffer at the end of a processing block.
    pub fn cleanup_process_block(&mut self)
        requires
            old(self).wf(),
        ensures
            final(self).wf(),
            final(self).immediate_events() == Seq::<Option<NodeEvent<E>>>::empty(),
            final(self).pending_events() == old(self).pending_events(),
            final(self).block_events() == old(self).block_events(),
            final(self).mode() == old(self).mode(),
            final(self).immediate_capacity() == old(self).immediate_capacity(),
            forall|k: u64, d: NodeEventSchedulerData|
                d.num_immediate_events == 0 && clump_contents(d.immediate_event_clump_indices).len() == 0 ==> #[trigger] final(self).imm_agrees(k, d),
    {
        self.immediate_event_buffer.clear();
        proof {
            lemma_empty_buffer_agrees(*self);
        }
    }

    /// Takes an event the node was handed (see [`Self::process_node`]) out
    /// of its buffer. An immediate event is taken from its position in the
    /// immediate event buffer; a scheduled event only from an arena slot of
    /// an event that elapsed in this block. `None` when there is no such
    /// event there.
    pub fn take_event(&mut self, index: NodeEventListIndex) -> (r: Option<NodeEvent<E>>)
        requires
            old(self).wf(),
        ensures
            final(self).wf(),
            final(self).pending_events() == old(self).pending_events(),
            final(self).mode() == old(self).mode(),
            final(self).immediate_capacity() == old(self).immediate_capacity(),
            final(self).block_events().len() == old(self).block_events().len(),
            match index {
                NodeEventListIndex::Immediate(i) => {
                    &&& r == (if i < old(self).immediate_events().len() {
                        old(self).immediate_events()[i as int]
                    } else {
                        None
                    })
                    &&& final(self).immediate_events() == (if i < old(self).immediate_events().len() {
                        old(self).immediate_events().update(i as int, None)
                    } else {
                        old(self).immediate_events()
                    })
                    &&& final(self).block_events() == old(self).block_events()
                    &&& forall|k: u64, d: NodeEventSchedulerData|
                        #![trigger final(self).imm_agrees(k, d)]
                        old(self).imm_agrees(k, d) && !(i < old(self).immediate_events().len() && imm_mask(
                            old(self).immediate_events(),
                            k,
                        )[i as int]) ==> final(self).imm_agrees(k, d)
                },
                NodeEventListIndex::Scheduled(slot) => {
                    let elapsed = exists|j: int| 0 <= j < old(self).block_events().len() && #[trigger] old(self).block_events()[j].0 == slot;
                    &&& final(self).immediate_events() == old(self).immediate_events()
                    &&& elapsed ==> r == old(self).arena_slot(slot)
                    &&& !elapsed ==> r is None && final(self).block_events() == old(self).block_events()
                    &&& forall|j: int| 0 <= j < old(self).block_events().len() ==> {
                        let b0 = #[trigger] old(self).block_events()[j];
                        let b1 = final(self).block_events()[j];
                        &&& b1.0 == b0.0
                        &&& b1.2 == b0.2
                        &&& b1.1 == (if elapsed && b0.0 == slot { None } else { b0.1 })
                    }
                },
            },
    {
        match index {
            NodeEventListIndex::Immediate(i) => {
                let i = i as usize;
                if i < self.immediate_event_buffer.len() {
                    let ghost buf0 = self.immediate_event_buffer@;
                    let mut taken: Option<NodeEvent<E>> = None;
                    self.immediate_event_buffer.set_and_swap(i, &mut taken);
                    proof {
                        assert forall|k: u64, d: NodeEventSchedulerData|
                            old(self).imm_agrees(k, d) && !imm_mask(buf0, k)[i as int] implies self.imm_agrees(k, d) by {
                            assert(imm_mask(self.immediate_event_buffer@, k) =~= imm_mask(buf0, k));
                        }
                    }
                    taken
                } else {
                    None
                }
            },
            NodeEventListIndex::Scheduled(slot) => {
                let ne = self.num_elapsed_sorted_events;
                let mut j: usize = 0;
                let mut found = false;
                while j < ne
                    invariant_except_break
                        !found,
                    invariant
                        j <= ne,
                        ne == self.num_elapsed_sorted_events,
                        self.wf(),
                        forall|a: int| 0 <= a < j ==> #[trigger] self.sorted_event_buffer_indices@[a].0 != slot,
                    ensures
                        found ==> j < ne && self.sorted_event_buffer_indices@[j as int].0 == slot,
                        !found ==> j == ne,
                    decreases ne - j,
                {
                    if self.sorted_event_buffer_indices[j].0 == slot {
                        found = true;
                        break;
                    }
                    j = j + 1;
                }
                proof {
                    if !found {
                        assert forall|a: int| 0 <= a < self.block_events().len() implies #[trigger] self.block_events()[a].0 != slot by {
                            assert(self.block_events()[a].0 == self.sorted_event_buffer_indices@[a].0);
                        }
                    } else {
                        assert(self.block_events()[j as int].0 == slot);
                    }
                }
                if !found {
                    return None;
                }
                let ghost pre = *self;
                let mut taken: Option<NodeEvent<E>> = None;
                self.scheduled_event_arena.set_and_swap(slot as usize, &mut taken);
                proof {
                    let sorted = self.sorted_event_buffer_indices@;
                    assert(sorted[j as int].0 == slot);
                    assert forall|b: int| ne <= b < sorted.len() implies #[trigger] sorted[b].0 != slot by {
                        assert(pre.wf());
                        assert(sorted[j as int].0 != sorted[b].0);
                    }
                    assert(self.pending_events() =~= pre.pending_events());
                    assert forall|a: int| 0 <= a < pre.block_events().len() implies {
                        let b0 = #[trigger] pre.block_events()[a];
                        let b1 = self.block_events()[a];
                        &&& b1.0 == b0.0
                        &&& b1.2 == b0.2
                        &&& b1.1 == (if b0.0 == slot { None } else { b0.1 })
                    } by {}
                }
                taken
            },
        }
    }
    /// Re-resolves the times of pending events on the musical transport
    /// after the transport changed: with a transport, `to_samples` gives
    /// each such event its new time; without one, they are set to `i64::MAX`
    /// so that they never elapse. Other events keep their times. Nothing
    /// happens when no musical event is pending.
    pub fn sync_scheduled_events<F: Fn(&NodeEvent<E>) -> i64>(&mut self, to_samples: Option<F>)
        requires
            old(self).wf(),
            to_samples matches Some(f) ==> forall|e: &NodeEvent<E>| #[trigger] f.requires((e,)),
        ensures
            final(self).wf(),
            final(self).pending_events().len() == old(self).pending_events().len(),
            forall|i: int| 0 <= i < old(self).pending_events().len() ==> {
                let p0 = #[trigger] old(self).pending_events()[i];
                let p1 = final(self).pending_events()[i];
                &&& p1.0 == p0.0
                &&& !is_musical_event(p0.0) ==> p1.1 == p0.1
                &&& is_musical_event(p0.0) ==> match to_samples {
                    Some(f) => f.ensures((&p0.0,), p1.1),
                    None => p1.1 == i64::MAX,
                }
            },
            final(self).immediate_events() == old(self).immediate_events(),
            final(self).mode() == old(self).mode(),
            final(self).immediate_capacity() == old(self).immediate_capacity(),
            forall|k: u64, m: bool| #[trigger] count_node_kind(final(self).pending_events(), k, m) == count_node_kind(
                old(self).pending_events(),
                k,
                m,
            ),
    {
        if self.num_scheduled_musical_events == 0 {
            proof {
                lemma_count_zero_none(self.pending_events(), true);
            }
            return;
        }
        self.truncate_elapsed_events();
        self.scheduled_events_need_sorting = true;
        let ghost p0 = self.pending_events();
        let len = self.sorted_event_buffer_indices.len();
        let mut i: usize = 0;
        while i < len
            invariant
                self.wf(),
                self.num_elapsed_sorted_events == 0,
                i <= len,
                len == self.sorted_event_buffer_indices@.len(),
                p0 == old(self).pending_events(),
                self.pending_events().len() == p0.len(),
                forall|j: int| 0 <= j < len ==> (#[trigger] self.pending_events()[j]).0 == p0[j].0,
                forall|j: int| i <= j < len ==> (#[trigger] self.pending_events()[j]).1 == p0[j].1,
                forall|j: int| 0 <= j < i ==> {
                    let a = #[trigger] p0[j];
                    let b = self.pending_events()[j];
                    &&& !is_musical_event(a.0) ==> b.1 == a.1
                    &&& is_musical_event(a.0) ==> match to_samples {
                        Some(f) => f.ensures((&a.0,), b.1),
                        None => b.1 == i64::MAX,
                    }
                },
                to_samples matches Some(f) ==> forall|e: &NodeEvent<E>| #[trigger] f.requires((e,)),
                self.scheduled_events_need_sorting,
                self.immediate_event_buffer@ == old(self).immediate_event_buffer@,
                self.immediate_event_buffer_capacity == old(self).immediate_event_buffer_capacity,
                self.buffer_out_of_space_mode == old(self).buffer_out_of_space_mode,
            decreases len - i,
        {
            let (slot, time) = self.sorted_event_buffer_indices[i];
            let new_time = match &self.scheduled_event_arena[slot as usize] {
                Some(e) => {
                    let musical = match e.time {
                        Some(t) => t.kind == EventTimeKind::Musical,
                        None => false,
                    };
                    if musical {
                        match &to_samples {
                            Some(f) => f(e),
                            None => i64::MAX,
                        }
                    } else {
                        time
                    }
                },
                None => time,
            };
            let ghost pre = *self;
            self.sorted_event_buffer_indices.set(i, (slot, new_time));
            proof {
                assert(pre.pending_events()[i as int] == (slot_event(pre.scheduled_event_arena@, slot), time));
                assert forall|j: int| 0 <= j < len implies #[trigger] self.sorted_event_buffer_indices@[j].0 == pre.sorted_event_buffer_indices@[j].0 by {}
                assert forall|j: int| 0 <= j < len implies (#[trigger] self.pending_events()[j]).0 == p0[j].0 by {
                    assert(self.pending_events()[j].0 == pre.pending_events()[j].0);
                }
                assert forall|j: int| i < j < len implies (#[trigger] self.pending_events()[j]).1 == p0[j].1 by {
                    assert(self.pending_events()[j].1 == pre.pending_events()[j].1);
                }
                assert(self.pending_events()[i as int].1 == new_time);
                assert forall|j: int| 0 <= j < self.pending_events().len() implies is_musical_event(#[trigger] self.pending_events()[j].0)
                    == is_musical_event(pre.pending_events()[j].0) by {
                    assert(self.pending_events()[j].0 == pre.pending_events()[j].0);
                }
                lemma_count_same_kinds(self.pending_events(), pre.pending_events(), true);
                lemma_count_same_kinds(self.pending_events(), pre.pending_events(), false);
            }
            i = i + 1;
        }
        proof {
            lemma_count_same_kinds(self.pending_events(), p0, true);
            lemma_count_same_kinds(self.pending_events(), p0, false);
            assert forall|k: u64, m: bool| #[trigger] count_node_kind(self.pending_events(), k, m) == count_node_kind(p0, k, m) by {
                lemma_count_node_same(self.pending_events(), p0, k, m);
            }
        }
    }

    /// Converts the times of the sorted list after the sample rate changed;
    /// `i64::MAX` (an event that never elapses) is kept. `convert` must keep
    /// the order of times.
    pub fn sample_rate_changed<F: Fn(i64) -> i64>(&mut self, convert: F)
        requires
            old(self).wf(),
            forall|t: i64| #[trigger] convert.requires((t,)),
            forall|a: i64, b: i64, ra: i64, rb: i64| a <= b && #[trigger] convert.ensures((a,), ra) && #[trigger] convert.ensures((b,), rb) ==> ra <= rb,
        ensures
            final(self).wf(),
            final(self).pending_events().len() == old(self).pending_events().len(),
            forall|i: int| 0 <= i < old(self).pending_events().len() ==> {
                let p0 = #[trigger] old(self).pending_events()[i];
                let p1 = final(self).pending_events()[i];
                &&& p1.0 == p0.0
                &&& p0.1 == i64::MAX ==> p1.1 == i64::MAX
                &&& p0.1 != i64::MAX ==> convert.ensures((p0.1,), p1.1)
            },
            final(self).immediate_events() == old(self).immediate_events(),
            final(self).mode() == old(self).mode(),
            final(self).immediate_capacity() == old(self).immediate_capacity(),
            forall|k: u64, m: bool| #[trigger] count_node_kind(final(self).pending_events(), k, m) == count_node_kind(
                old(self).pending_events(),
                k,
                m,
            ),
    {
        let ghost p0 = self.pending_events();
        let ghost s0 = self.sorted_event_buffer_indices@;
        let len = self.sorted_event_buffer_indices.len();
        let mut i: usize = 0;
        while i < len
            invariant
                i <= len,
                len == self.sorted_event_buffer_indices@.len(),
                s0 == old(self).sorted_event_buffer_indices@,
                s0.len() == len,
                p0 == old(self).pending_events(),
                self.scheduled_event_arena == old(self).scheduled_event_arena,
                self.scheduled_event_arena_free_slots == old(self).scheduled_event_arena_free_slots,
                self.num_elapsed_sorted_events == old(self).num_elapsed_sorted_events,
                self.scheduled_events_need_sorting == old(self).scheduled_events_need_sorting,
                self.num_scheduled_musical_events == old(self).num_scheduled_musical_events,
                self.num_scheduled_non_musical_events == old(self).num_scheduled_non_musical_events,
                self.immediate_event_buffer == old(self).immediate_event_buffer,
                self.immediate_event_buffer_capacity == old(self).immediate_event_buffer_capacity,
                self.buffer_out_of_space_mode == old(self).buffer_out_of_space_mode,
                forall|j: int| 0 <= j < len ==> (#[trigger] self.sorted_event_buffer_indices@[j]).0 == s0[j].0,
                forall|j: int| i <= j < len ==> (#[trigger] self.sorted_event_buffer_indices@[j]).1 == s0[j].1,
                forall|j: int| 0 <= j < i ==> {
                    let a = #[trigger] s0[j];
                    let b = self.sorted_event_buffer_indices@[j];
                    &&& a.1 == i64::MAX ==> b.1 == i64::MAX
                    &&& a.1 != i64::MAX ==> convert.ensures((a.1,), b.1)
                },
                forall|t: i64| #[trigger] convert.requires((t,)),
            decreases len - i,
        {
            let (slot, time) = self.sorted_event_buffer_indices[i];
            if time != i64::MAX {
                let new_time = convert(time);
                self.sorted_event_buffer_indices.set(i, (slot, new_time));
            }
            i = i + 1;
        }
        proof {
            let sorted = self.sorted_event_buffer_indices@;
            let ne = self.num_elapsed_sorted_events as int;
            assert(self.pending_events().len() == p0.len());
            assert forall|j: int| 0 <= j < p0.len() implies {
                let a = #[trigger] p0[j];
                let b = self.pending_events()[j];
                &&& b.0 == a.0
                &&& a.1 == i64::MAX ==> b.1 == i64::MAX
                &&& a.1 != i64::MAX ==> convert.ensures((a.1,), b.1)
            } by {
                assert(sorted[ne + j].0 == s0[ne + j].0);
            }
            if !self.scheduled_events_need_sorting {
                assert forall|a: int, b: int| ne <= a <= b < sorted.len() implies #[trigger] sorted[a].1 <= #[trigger] sorted[b].1 by {
                    assert(s0[a].1 <= s0[b].1);
                    if s0[a].1 != i64::MAX && s0[b].1 != i64::MAX {
                        assert(convert.ensures((s0[a].1,), sorted[a].1));
                        assert(convert.ensures((s0[b].1,), sorted[b].1));
                    }
                }
            }
            assert forall|j: int| 0 <= j < self.pending_events().len() implies is_musical_event(#[trigger] self.pending_events()[j].0)
                == is_musical_event(p0[j].0) by {}
            lemma_count_same_kinds(self.pending_events(), p0, true);
            lemma_count_same_kinds(self.pending_events(), p0, false);
            assert forall|k: u64, m: bool| #[trigger] count_node_kind(self.pending_events(), k, m) == count_node_kind(p0, k, m) by {
                lemma_count_node_same(self.pending_events(), p0, k, m);
            }
        }
    }
}

} // verus!

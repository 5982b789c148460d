//! The bookkeeping of a pool of worker node chains that are assigned work
//! on demand: which worker plays which piece of work, under which ID.
use crate::arena::{
    worker_arena_clear, worker_arena_contents, worker_arena_get, worker_arena_insert,
    worker_arena_new, worker_arena_remove,
};
use crate::ids::NodeID;
use thunderdome::Arena;
use vstd::prelude::*;

verus! {

/// The ID of a piece of work assigned to a worker: the bits of its index
/// in the pool's ID arena.
#[derive(Debug, Clone, Copy, PartialEq, Eq, Hash, Structural)]
pub struct WorkerID(pub u64);

/// An error while assigning new work.
#[derive(Debug, Clone, Copy, PartialEq, Eq, Structural)]
pub enum NewWorkerError {
    /// The given parameters signify a stopped sequence.
    ParameterStateIsStop,
    /// The worker pool is full.
    NoMoreWorkers,
}

/// The worker that new work went to.
#[derive(Debug, Clone, Copy, PartialEq, Eq, Structural)]
pub struct WorkerAssignment {
    /// The position of the worker in the pool.
    pub worker_index: usize,
    /// The new ID of the work.
    pub worker_id: WorkerID,
    /// The ID of the work the worker had before, if any.
    pub old_worker_id: Option<WorkerID>,
    /// The ID of the first node of the worker.
    pub first_node_id: NodeID,
}

/// The result of assigning new work.
#[derive(Debug, Clone, Copy, PartialEq, Eq, Structural)]
pub struct NewWorkerResult {
    /// The new ID of the worker assigned to play this sequence.
    pub worker_id: WorkerID,
    /// The ID that was previously assigned to this worker.
    pub old_worker_id: Option<WorkerID>,
    /// The ID of the first node in this worker.
    pub first_node_id: NodeID,
    /// Whether this worker was already playing a sequence, which has been
    /// stopped.
    pub was_playing_sequence: bool,
}

/// The bits of the ID of a piece of work, if any.
pub open spec fn id_bits(o: Option<WorkerID>) -> u64 {
    match o {
        Some(w) => w.0,
        None => 0,
    }
}

/// The number of workers that have work.
pub open spec fn count_assigned(s: Seq<Option<WorkerID>>) -> nat
    decreases s.len(),
{
    if s.len() == 0 {
        0
    } else {
        count_assigned(s.drop_last()) + if s.last() is Some {
            1nat
        } else {
            0nat
        }
    }
}

/// The worker that new work goes to, scanning from position `i` with the
/// best candidate so far at `idx` with score `max`: the first worker
/// without work, or the first whose score is `u64::MAX`, else the first
/// worker with the highest score (position 0 when no score is above 0).
pub open spec fn choose_worker_from(assigned: Seq<Option<WorkerID>>, scores: Seq<u64>, i: int, idx: int, max: u64) -> int
    decreases assigned.len() - i,
{
    if i < 0 || i >= assigned.len() {
        idx
    } else if assigned[i] is None {
        i
    } else if scores[i] == u64::MAX {
        i
    } else if scores[i] > max {
        choose_worker_from(assigned, scores, i + 1, i, scores[i])
    } else {
        choose_worker_from(assigned, scores, i + 1, idx, max)
    }
}

proof fn lemma_choose_in_range(assigned: Seq<Option<WorkerID>>, scores: Seq<u64>, i: int, idx: int, max: u64)
    requires
        0 <= i,
        0 <= idx < assigned.len(),
    ensures
        0 <= choose_worker_from(assigned, scores, i, idx, max) < assigned.len(),
    decreases assigned.len() - i,
{
    if i < assigned.len() && !(assigned[i] is None) && scores[i] != u64::MAX {
        if scores[i] > max {
            lemma_choose_in_range(assigned, scores, i + 1, i, scores[i]);
        } else {
            lemma_choose_in_range(assigned, scores, i + 1, idx, max);
        }
    }
}

proof fn lemma_count_assigned_update(s: Seq<Option<WorkerID>>, i: int, v: Option<WorkerID>)
    requires
        0 <= i < s.len(),
    ensures
        count_assigned(s.update(i, v)) + (if s[i] is Some { 1int } else { 0int }) == count_assigned(s) + (
        if v is Some { 1int } else { 0int }),
    decreases s.len(),
{
    if i < s.len() - 1 {
        assert(s.update(i, v).drop_last() =~= s.drop_last().update(i, v));
        lemma_count_assigned_update(s.drop_last(), i, v);
    } else {
        assert(s.update(i, v).drop_last() =~= s.drop_last());
    }
}

proof fn lemma_count_assigned_bound(s: Seq<Option<WorkerID>>)
    ensures
        count_assigned(s) <= s.len(),
    decreases s.len(),
{
    if s.len() > 0 {
        lemma_count_assigned_bound(s.drop_last());
    }
}

/// The workers of a pool, the work each has, and the count of active
/// workers.
pub struct WorkerPool {
    assigned: Vec<Option<WorkerID>>,
    first_node_ids: Vec<NodeID>,
    worker_ids: Arena<usize>,
    num_active_workers: usize,
    dst_node_id: NodeID,
}

impl WorkerPool {
    /// The work each worker has, by position.
    pub closed spec fn assigned_view(&self) -> Seq<Option<WorkerID>> {
        self.assigned@
    }

    /// The first node of each worker, by position.
    pub closed spec fn first_nodes_view(&self) -> Seq<NodeID> {
        self.first_node_ids@
    }

    /// The position of the worker that has each piece of work.
    pub closed spec fn ids_view(&self) -> Map<u64, usize> {
        worker_arena_contents(self.worker_ids)
    }

    pub closed spec fn num_active_view(&self) -> usize {
        self.num_active_workers
    }

    pub closed spec fn dst_node_view(&self) -> NodeID {
        self.dst_node_id
    }

    /// The work IDs and the workers agree: a worker has an ID exactly when
    /// the ID names its position, and the active count is the number of
    /// workers with work (so it never exceeds the number of workers).
    pub closed spec fn wf(&self) -> bool {
        &&& self.assigned@.len() == self.first_node_ids@.len()
        &&& 0 < self.assigned@.len() < u32::MAX
        &&& self.ids_view().dom().finite()
        &&& forall|i: int|
            0 <= i < self.assigned@.len() && (#[trigger] self.assigned@[i]) is Some ==> self.ids_view().contains_key(
                id_bits(self.assigned@[i]),
            ) && self.ids_view()[id_bits(self.assigned@[i])] == i
        &&& forall|k: u64| #[trigger]
            self.ids_view().contains_key(k) ==> self.ids_view()[k] < self.assigned@.len()
                && self.assigned@[self.ids_view()[k] as int] == Some(WorkerID(k))
        &&& self.num_active_workers == count_assigned(self.assigned@)
        &&& self.num_active_workers <= self.assigned@.len()
    }

    /// The active count is the number of workers that have work, so it
    /// never exceeds the number of workers.
    pub proof fn law_active_count_within_workers(&self)
        requires
            self.wf(),
        ensures
            self.num_active_view() == count_assigned(self.assigned_view()),
            self.num_active_view() <= self.assigned_view().len(),
    {
    }

    /// The IDs in use are those of the workers that have work.
    proof fn lemma_ids_len(&self)
        requires
            self.wf(),
        ensures
            self.ids_view().dom().len() <= self.assigned@.len(),
    {
        let ids = self.ids_view();
        let f = |k: u64| ids[k] as int;
        let positions = vstd::set_lib::set_int_range(0, self.assigned@.len() as int);
        vstd::set_lib::lemma_int_range(0, self.assigned@.len() as int);
        assert(ids.dom().map(f).subset_of(positions));
        assert forall|a: u64, b: u64| ids.dom().contains(a) && ids.dom().contains(b) && f(a) == f(b) implies a == b by {
            assert(self.assigned@[ids[a] as int] == Some(WorkerID(a)));
            assert(self.assigned@[ids[b] as int] == Some(WorkerID(b)));
        }
        assert(vstd::relations::injective_on(f, ids.dom()));
        vstd::set_lib::lemma_map_size(ids.dom(), ids.dom().map(f), f);
        vstd::set_lib::lemma_len_subset(ids.dom().map(f), positions);
    }

    /// Creates a pool of workers whose first nodes are `first_node_ids`,
    /// none of which has work.
    pub fn new(first_node_ids: Vec<NodeID>, dst_node_id: NodeID) -> (r: Self)
        requires
            0 < first_node_ids@.len() < u32::MAX,
        ensures
            r.wf(),
            r.first_nodes_view() == first_node_ids@,
            r.assigned_view() == Seq::new(first_node_ids@.len(), |i: int| None::<WorkerID>),
            r.ids_view().is_empty(),
            r.num_active_view() == 0,
            r.dst_node_view() == dst_node_id,
    {
        let n = first_node_ids.len();
        let mut assigned: Vec<Option<WorkerID>> = Vec::with_capacity(n);
        let mut i: usize = 0;
        while i < n
            invariant
                i <= n,
                assigned@ == Seq::new(i as nat, |j: int| None::<WorkerID>),
            decreases n - i,
        {
            assigned.push(None);
            proof {
                assert(assigned@ =~= Seq::new((i + 1) as nat, |j: int| None::<WorkerID>));
            }
            i += 1;
        }
        let r = WorkerPool {
            assigned,
            first_node_ids,
            worker_ids: worker_arena_new(n),
            num_active_workers: 0,
            dst_node_id,
        };
        proof {
            assert(count_assigned(r.assigned@) == 0) by {
                lemma_count_none(n as int);
            }
        }
        r
    }

    /// The number of workers in the pool.
    pub fn num_workers(&self) -> (r: usize)
        requires
            self.wf(),
        ensures
            r == self.assigned_view().len(),
    {
        self.assigned.len()
    }

    /// The number of active workers, as last counted.
    pub fn num_active_workers(&self) -> (r: usize)
        ensures
            r == self.num_active_view(),
    {
        self.num_active_workers
    }

    /// The ID of the node that all worker chains connect to.
    pub fn dst_node_id(&self) -> (r: NodeID)
        ensures
            r == self.dst_node_view(),
    {
        self.dst_node_id
    }

    /// The position of the worker that has the given work, if any.
    pub fn worker_index(&self, worker_id: WorkerID) -> (r: Option<usize>)
        requires
            self.wf(),
        ensures
            r == (if self.ids_view().contains_key(worker_id.0) {
                Some(self.ids_view()[worker_id.0])
            } else {
                None
            }),
            r matches Some(i) ==> i < self.assigned_view().len() && self.assigned_view()[i as int] == Some(worker_id),
    {
        worker_arena_get(&self.worker_ids, worker_id.0)
    }

    /// The first node of the worker that has the given work, if any.
    pub fn first_node_id(&self, worker_id: WorkerID) -> (r: Option<NodeID>)
        requires
            self.wf(),
        ensures
            r == (if self.ids_view().contains_key(worker_id.0) {
                Some(self.first_nodes_view()[self.ids_view()[worker_id.0] as int])
            } else {
                None
            }),
    {
        match worker_arena_get(&self.worker_ids, worker_id.0) {
            Some(i) => Some(self.first_node_ids[i]),
            None => None,
        }
    }

    /// The first node of the worker at position `i`.
    pub fn first_node_of(&self, i: usize) -> (r: NodeID)
        requires
            self.wf(),
            i < self.first_nodes_view().len(),
        ensures
            r == self.first_nodes_view()[i as int],
    {
        self.first_node_ids[i]
    }

    /// Assigns new work to a worker: the first worker without work, else
    /// the first whose score is `u64::MAX`, else the first with the highest
    /// score. `scores[i]` is the score of the worker at position `i`.
    ///
    /// Refused when the parameters signify a stopped sequence, or when
    /// `steal` is `false` and the active count has reached the number of
    /// workers.
    pub fn new_worker(&mut self, params_stopped: bool, steal: bool, scores: &[u64]) -> (r: Result<WorkerAssignment, NewWorkerError>)
        requires
            old(self).wf(),
            scores@.len() == old(self).assigned_view().len(),
        ensures
            final(self).wf(),
            params_stopped ==> r == Err::<WorkerAssignment, NewWorkerError>(NewWorkerError::ParameterStateIsStop),
            !params_stopped && !steal && old(self).num_active_view() == old(self).assigned_view().len() ==> r
                == Err::<WorkerAssignment, NewWorkerError>(NewWorkerError::NoMoreWorkers),
            r is Err ==> *final(self) == *old(self),
            !params_stopped && (steal || old(self).num_active_view() != old(self).assigned_view().len()) ==> r is Ok,
            r matches Ok(a) ==> {
                let i = choose_worker_from(old(self).assigned_view(), scores@, 0, 0, 0);
                &&& a.worker_index == i
                &&& a.worker_index < old(self).assigned_view().len()
                &&& a.old_worker_id == old(self).assigned_view()[i]
                &&& a.first_node_id == old(self).first_nodes_view()[i]
                &&& !old(self).ids_view().contains_key(a.worker_id.0)
                &&& final(self).assigned_view() == old(self).assigned_view().update(i, Some(a.worker_id))
                &&& final(self).ids_view() == (match a.old_worker_id {
                    Some(o) => old(self).ids_view().remove(o.0),
                    None => old(self).ids_view(),
                }).insert(a.worker_id.0, i as usize)
                &&& final(self).num_active_view() == old(self).num_active_view() + (if a.old_worker_id is None {
                    1int
                } else {
                    0int
                })
                &&& final(self).first_nodes_view() == old(self).first_nodes_view()
                &&& final(self).dst_node_view() == old(self).dst_node_view()
            },
    {
        if params_stopped {
            return Err(NewWorkerError::ParameterStateIsStop);
        }
        if !steal && self.num_active_workers == self.assigned.len() {
            return Err(NewWorkerError::NoMoreWorkers);
        }
        let ghost sa = self.assigned@;
        let mut idx: usize = 0;
        let mut max_score: u64 = 0;
        let mut i: usize = 0;
        while i < self.assigned.len()
            invariant
                sa == self.assigned@,
                scores@.len() == sa.len(),
                i <= sa.len(),
                idx < sa.len(),
                choose_worker_from(sa, scores@, 0, 0, 0) == choose_worker_from(sa, scores@, i as int, idx as int, max_score),
            ensures
                choose_worker_from(sa, scores@, 0, 0, 0) == idx,
                idx < sa.len(),
            decreases sa.len() - i,
        {
            if self.assigned[i].is_none() {
                idx = i;
                break;
            }
            let score = scores[i];
            if score == u64::MAX {
                idx = i;
                break;
            }
            if score > max_score {
                max_score = score;
                idx = i;
            }
            i += 1;
        }
        proof {
            self.lemma_ids_len();
        }
        let k = worker_arena_insert(&mut self.worker_ids, idx);
        let worker_id = WorkerID(k);
        let old_worker_id = self.assigned[idx];
        if let Some(o) = old_worker_id {
            let _ = worker_arena_remove(&mut self.worker_ids, o.0);
        }
        proof {
            lemma_count_assigned_update(sa, idx as int, Some(worker_id));
            lemma_count_assigned_bound(sa.update(idx as int, Some(worker_id)));
        }
        self.assigned.set(idx, Some(worker_id));
        if old_worker_id.is_none() {
            self.num_active_workers = self.num_active_workers + 1;
        }
        proof {
            let ids = self.ids_view();
            assert forall|j: int|
                0 <= j < self.assigned@.len() && (#[trigger] self.assigned@[j]) is Some implies ids.contains_key(
                id_bits(self.assigned@[j]),
                ) && ids[id_bits(self.assigned@[j])] == j by {
                if j != idx {
                    assert(sa[j] is Some);
                    assert(id_bits(sa[j]) != k);
                    if let Some(o) = old_worker_id {
                        assert(id_bits(sa[j]) != o.0);
                    }
                }
            }
            assert forall|k2: u64| #[trigger] ids.contains_key(k2) implies ids[k2] < self.assigned@.len()
                && self.assigned@[ids[k2] as int] == Some(WorkerID(k2)) by {
                if k2 != k {
                    assert(old(self).ids_view().contains_key(k2));
                }
            }
        }
        Ok(WorkerAssignment {
            worker_index: idx,
            worker_id,
            old_worker_id,
            first_node_id: self.first_node_ids[idx],
        })
    }

    /// Takes the work away from the worker that has it, as when its
    /// sequence is stopped; `false` if no worker has it.
    pub fn release_worker(&mut self, worker_id: WorkerID) -> (r: bool)
        requires
            old(self).wf(),
        ensures
            final(self).wf(),
            r == old(self).ids_view().contains_key(worker_id.0),
            !r ==> *final(self) == *old(self),
            r ==> {
                let i = old(self).ids_view()[worker_id.0];
                &&& final(self).assigned_view() == old(self).assigned_view().update(i as int, None)
                &&& final(self).ids_view() == old(self).ids_view().remove(worker_id.0)
                &&& final(self).num_active_view() == old(self).num_active_view() - 1
                &&& final(self).first_nodes_view() == old(self).first_nodes_view()
                &&& final(self).dst_node_view() == old(self).dst_node_view()
            },
    {
        let idx = match worker_arena_get(&self.worker_ids, worker_id.0) {
            Some(i) => i,
            None => return false,
        };
        let ghost sa = self.assigned@;
        let _ = worker_arena_remove(&mut self.worker_ids, worker_id.0);
        self.assigned.set(idx, None);
        proof {
            lemma_count_assigned_update(sa, idx as int, None);
            assert(sa[idx as int] is Some);
        }
        self.num_active_workers = self.num_active_workers - 1;
        proof {
            let ids = self.ids_view();
            assert forall|j: int|
                0 <= j < self.assigned@.len() && (#[trigger] self.assigned@[j]) is Some implies ids.contains_key(
                id_bits(self.assigned@[j]),
                ) && ids[id_bits(self.assigned@[j])] == j by {
                assert(sa[j] is Some);
            }
            assert forall|k2: u64| #[trigger] ids.contains_key(k2) implies ids[k2] < self.assigned@.len()
                && self.assigned@[ids[k2] as int] == Some(WorkerID(k2)) by {
                assert(old(self).ids_view().contains_key(k2));
            }
        }
        true
    }

    /// The positions of the workers that have work, in order.
    pub fn assigned_worker_indices(&self) -> (r: Vec<usize>)
        requires
            self.wf(),
        ensures
            forall|j: int| 0 <= j < r@.len() ==> r@[j] < self.assigned_view().len() && self.assigned_view()[#[trigger] r@[j] as int] is Some,
            forall|i: int| 0 <= i < self.assigned_view().len() && (#[trigger] self.assigned_view()[i]) is Some ==> r@.contains(i as usize),
            forall|a: int, b: int| 0 <= a < b < r@.len() ==> r@[a] < r@[b],
    {
        let mut out: Vec<usize> = Vec::new();
        let mut i: usize = 0;
        while i < self.assigned.len()
            invariant
                i <= self.assigned@.len(),
                forall|j: int| 0 <= j < out@.len() ==> out@[j] < i && self.assigned@[#[trigger] out@[j] as int] is Some,
                forall|j: int| 0 <= j < i && (#[trigger] self.assigned@[j]) is Some ==> out@.contains(j as usize),
                forall|a: int, b: int| 0 <= a < b < out@.len() ==> out@[a] < out@[b],
            decreases self.assigned@.len() - i,
        {
            let ghost prev = out@;
            if self.assigned[i].is_some() {
                out.push(i);
                proof {
                    assert(out@[out@.len() - 1] == i);
                }
            }
            proof {
                assert forall|j: int| 0 <= j < i + 1 && (#[trigger] self.assigned@[j]) is Some implies out@.contains(j as usize) by {
                    if j < i {
                        let t = choose|t: int| 0 <= t < prev.len() && prev[t] == j as usize;
                        assert(out@[t] == prev[t]);
                    } else {
                        assert(out@[out@.len() - 1] == i);
                    }
                }
            }
            i += 1;
        }
        out
    }

    /// Takes the work away from every worker. Returns the positions of the
    /// workers that had work, in order.
    pub fn stop_all(&mut self) -> (r: Vec<usize>)
        requires
            old(self).wf(),
        ensures
            final(self).wf(),
            forall|j: int| 0 <= j < r@.len() ==> r@[j] < old(self).assigned_view().len() && old(self).assigned_view()[#[trigger] r@[j] as int] is Some,
            forall|i: int| 0 <= i < old(self).assigned_view().len() && (#[trigger] old(self).assigned_view()[i]) is Some ==> r@.contains(i as usize),
            final(self).assigned_view() == Seq::new(old(self).assigned_view().len(), |i: int| None::<WorkerID>),
            final(self).ids_view().is_empty(),
            final(self).num_active_view() == 0,
            final(self).first_nodes_view() == old(self).first_nodes_view(),
            final(self).dst_node_view() == old(self).dst_node_view(),
    {
        let indices = self.assigned_worker_indices();
        let n = self.assigned.len();
        let mut i: usize = 0;
        while i < n
            invariant
                n == self.assigned@.len(),
                n == old(self).assigned@.len(),
                i <= n,
                forall|j: int| 0 <= j < i ==> self.assigned@[j] is None,
                forall|j: int| i <= j < n ==> self.assigned@[j] == old(self).assigned@[j],
                self.first_node_ids == old(self).first_node_ids,
                self.dst_node_id == old(self).dst_node_id,
            decreases n - i,
        {
            self.assigned.set(i, None);
            i += 1;
        }
        worker_arena_clear(&mut self.worker_ids);
        self.num_active_workers = 0;
        proof {
            assert(self.assigned@ =~= Seq::new(n as nat, |i: int| None::<WorkerID>));
            lemma_count_none(n as int);
        }
        indices
    }

    /// Counts the active workers anew, and takes the work away from the
    /// workers whose sequence has stopped (`stopped[i]` for the worker at
    /// position `i`). Returns the IDs of the work taken away, in the order
    /// of the workers.
    pub fn poll(&mut self, stopped: &[bool]) -> (r: Vec<WorkerID>)
        requires
            old(self).wf(),
            stopped@.len() == old(self).assigned_view().len(),
        ensures
            final(self).wf(),
            final(self).assigned_view() == Seq::new(old(self).assigned_view().len(), |i: int|
                if stopped@[i] { None } else { old(self).assigned_view()[i] }),
            final(self).num_active_view() == count_assigned(final(self).assigned_view()),
            r@ == finished_ids(old(self).assigned_view(), stopped@),
            final(self).ids_view() == old(self).ids_view().remove_keys(r@.map_values(|w: WorkerID| w.0).to_set()),
            final(self).first_nodes_view() == old(self).first_nodes_view(),
            final(self).dst_node_view() == old(self).dst_node_view(),
    {
        let ghost sa = self.assigned@;
        let n = self.assigned.len();
        let mut finished: Vec<WorkerID> = Vec::new();
        let mut count: usize = 0;
        let mut i: usize = 0;
        assert(sa.take(0) =~= Seq::<Option<WorkerID>>::empty());
        assert(stopped@.take(0) =~= Seq::<bool>::empty());
        assert(old(self).ids_view().remove_keys(Seq::<u64>::empty().to_set()) =~= old(self).ids_view());
        while i < n
            invariant
                n == sa.len(),
                sa == old(self).assigned@,
                stopped@.len() == n,
                i <= n,
                old(self).wf(),
                self.assigned@.len() == n,
                forall|j: int| 0 <= j < i ==> self.assigned@[j] == (if stopped@[j] { None } else { sa[j] }),
                forall|j: int| i <= j < n ==> self.assigned@[j] == sa[j],
                count == count_assigned(self.assigned@.take(i as int)),
                count <= i,
                finished@ == finished_ids(sa.take(i as int), stopped@.take(i as int)),
                self.ids_view() == old(self).ids_view().remove_keys(finished@.map_values(|w: WorkerID| w.0).to_set()),
                self.first_node_ids == old(self).first_node_ids,
                self.dst_node_id == old(self).dst_node_id,
            decreases n - i,
        {
            let ghost prev = self.assigned@;
            let ghost prev_fin = finished@;
            proof {
                assert(sa.take(i + 1).drop_last() =~= sa.take(i as int));
                assert(stopped@.take(i + 1).drop_last() =~= stopped@.take(i as int));
                assert(self.assigned@.take(i + 1).drop_last() =~= self.assigned@.take(i as int));
            }
            if let Some(id) = self.assigned[i] {
                if stopped[i] {
                    let _ = worker_arena_remove(&mut self.worker_ids, id.0);
                    self.assigned.set(i, None);
                    finished.push(id);
                    proof {
                        assert(finished@.map_values(|w: WorkerID| w.0) =~= prev_fin.map_values(|w: WorkerID| w.0).push(id.0));
                        prev_fin.map_values(|w: WorkerID| w.0).lemma_push_to_set_commute(id.0);
                        assert(self.ids_view() =~= old(self).ids_view().remove_keys(finished@.map_values(|w: WorkerID| w.0).to_set()));
                        assert(self.assigned@.take(i + 1).drop_last() =~= prev.take(i as int));
                    }
                } else {
                    count += 1;
                }
            } else {
                proof {
                    assert(self.assigned@.take(i + 1).drop_last() =~= self.assigned@.take(i as int));
                }
            }
            i += 1;
        }
        proof {
            assert(sa.take(n as int) =~= sa);
            assert(stopped@.take(n as int) =~= stopped@);
            assert(self.assigned@.take(n as int) =~= self.assigned@);
            assert(self.assigned@ =~= Seq::new(n as nat, |j: int| if stopped@[j] { None } else { sa[j] }));
            let ids = self.ids_view();
            assert forall|j: int|
                0 <= j < self.assigned@.len() && (#[trigger] self.assigned@[j]) is Some implies ids.contains_key(
                id_bits(self.assigned@[j]),
                ) && ids[id_bits(self.assigned@[j])] == j by {
                assert(sa[j] is Some);
                assert(old(self).ids_view().contains_key(id_bits(sa[j])));
                lemma_finished_ids_members(sa, stopped@, id_bits(sa[j]));
            }
            assert forall|k2: u64| #[trigger] ids.contains_key(k2) implies ids[k2] < self.assigned@.len()
                && self.assigned@[ids[k2] as int] == Some(WorkerID(k2)) by {
                assert(old(self).ids_view().contains_key(k2));
                let j = old(self).ids_view()[k2] as int;
                lemma_finished_ids_members(sa, stopped@, k2);
            }
        }
        self.num_active_workers = count;
        proof {
            assert(self.ids_view().dom() =~= old(self).ids_view().dom().difference(finished@.map_values(|w: WorkerID| w.0).to_set()));
            assert(self.ids_view().dom().finite());
            assert(self.num_active_workers == count_assigned(self.assigned@));
            assert(0 < self.assigned@.len() < u32::MAX);
            assert(self.assigned@.len() == self.first_node_ids@.len());
        }
        finished
    }
}

/// The IDs of the work whose worker has stopped, in the order of the
/// workers.
pub open spec fn finished_ids(assigned: Seq<Option<WorkerID>>, stopped: Seq<bool>) -> Seq<WorkerID>
    decreases assigned.len(),
{
    if assigned.len() == 0 || stopped.len() != assigned.len() {
        Seq::empty()
    } else {
        let prev = finished_ids(assigned.drop_last(), stopped.drop_last());
        match assigned.last() {
            Some(id) => if stopped.last() {
                prev.push(id)
            } else {
                prev
            },
            None => prev,
        }
    }
}

/// An assigned ID is among the finished IDs exactly when its worker
/// stopped (IDs being distinct).
proof fn lemma_finished_ids_members(assigned: Seq<Option<WorkerID>>, stopped: Seq<bool>, k: u64)
    requires
        stopped.len() == assigned.len(),
    ensures
        finished_ids(assigned, stopped).map_values(|w: WorkerID| w.0).to_set().contains(k) <==> exists|j: int|
            0 <= j < assigned.len() && assigned[j] == Some(WorkerID(k)) && stopped[j],
    decreases assigned.len(),
{
    if assigned.len() > 0 {
        let a2 = assigned.drop_last();
        let s2 = stopped.drop_last();
        lemma_finished_ids_members(a2, s2, k);
        let prev = finished_ids(a2, s2);
        let pb = prev.map_values(|w: WorkerID| w.0);
        let cur = finished_ids(assigned, stopped);
        let n = assigned.len() - 1;
        if assigned.last() is Some && stopped.last() {
            let id = assigned.last()->0;
            assert(cur == prev.push(id));
            assert(cur.map_values(|w: WorkerID| w.0) =~= pb.push(id.0));
            pb.lemma_push_to_set_commute(id.0);
        } else {
            assert(cur == prev);
        }
        if exists|j: int| 0 <= j < a2.len() && a2[j] == Some(WorkerID(k)) && s2[j] {
            let j = choose|j: int| 0 <= j < a2.len() && a2[j] == Some(WorkerID(k)) && s2[j];
            assert(assigned[j] == a2[j] && stopped[j] == s2[j]);
        }
        if exists|j: int| 0 <= j < assigned.len() && assigned[j] == Some(WorkerID(k)) && stopped[j] {
            let j = choose|j: int| 0 <= j < assigned.len() && assigned[j] == Some(WorkerID(k)) && stopped[j];
            if j < n {
                assert(a2[j] == assigned[j] && s2[j] == stopped[j]);
            }
        }
    }
}

proof fn lemma_count_none(n: int)
    requires
        0 <= n,
    ensures
        count_assigned(Seq::new(n as nat, |i: int| None::<WorkerID>)) == 0,
    decreases n,
{
    if n > 0 {
        assert(Seq::new(n as nat, |i: int| None::<WorkerID>).drop_last() =~= Seq::new((n - 1) as nat, |i: int| None::<WorkerID>));
        lemma_count_none(n - 1);
    }
}

impl NewWorkerResult {
    /// The result of assigning new work to a worker: it was already playing
    /// when it had work before whose sequence had not stopped
    /// (`old_work_stopped`).
    pub fn from_assignment(a: WorkerAssignment, old_work_stopped: bool) -> (r: NewWorkerResult)
        ensures
            r.worker_id == a.worker_id,
            r.old_worker_id == a.old_worker_id,
            r.first_node_id == a.first_node_id,
            r.was_playing_sequence == (a.old_worker_id is Some && !old_work_stopped),
    {
        NewWorkerResult {
            worker_id: a.worker_id,
            old_worker_id: a.old_worker_id,
            first_node_id: a.first_node_id,
            was_playing_sequence: a.old_worker_id.is_some() && !old_work_stopped,
        }
    }
}

} // verus!

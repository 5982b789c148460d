use firewheel::ids::NodeID;
use firewheel::pool::{NewWorkerError, NewWorkerResult, WorkerPool};

fn pool(n: u64) -> WorkerPool {
    WorkerPool::new((0..n).map(NodeID).collect(), NodeID(100))
}

#[test]
fn new_work_goes_to_free_workers_first() {
    let mut p = pool(3);
    let a = p.new_worker(false, false, &[0, 0, 0]).unwrap();
    assert_eq!(a.worker_index, 0);
    assert_eq!(a.old_worker_id, None);
    assert_eq!(a.first_node_id, NodeID(0));
    let b = p.new_worker(false, false, &[5, 0, 0]).unwrap();
    assert_eq!(b.worker_index, 1);
    assert_eq!(p.num_active_workers(), 2);
    assert_eq!(p.worker_index(a.worker_id), Some(0));
    assert_eq!(p.first_node_id(b.worker_id), Some(NodeID(1)));
}

#[test]
fn full_pool_refuses_or_steals_the_best_score() {
    let mut p = pool(2);
    let a = p.new_worker(false, false, &[0, 0]).unwrap();
    let b = p.new_worker(false, false, &[0, 0]).unwrap();
    assert_eq!(p.new_worker(false, false, &[1, 2]), Err(NewWorkerError::NoMoreWorkers));
    assert_eq!(p.new_worker(true, true, &[1, 2]), Err(NewWorkerError::ParameterStateIsStop));
    let c = p.new_worker(false, true, &[1, 9]).unwrap();
    assert_eq!(c.worker_index, 1);
    assert_eq!(c.old_worker_id, Some(b.worker_id));
    assert_eq!(p.worker_index(b.worker_id), None);
    assert_eq!(p.num_active_workers(), 2);
    let d = p.new_worker(false, true, &[u64::MAX, 9]).unwrap();
    assert_eq!(d.worker_index, 0);
    assert_eq!(d.old_worker_id, Some(a.worker_id));
    let r = NewWorkerResult::from_assignment(d, false);
    assert!(r.was_playing_sequence);
    assert!(!NewWorkerResult::from_assignment(d, true).was_playing_sequence);
}

#[test]
fn release_poll_and_stop_all() {
    let mut p = pool(3);
    let a = p.new_worker(false, false, &[0, 0, 0]).unwrap();
    let b = p.new_worker(false, false, &[0, 0, 0]).unwrap();
    let c = p.new_worker(false, false, &[0, 0, 0]).unwrap();
    assert!(p.release_worker(b.worker_id));
    assert!(!p.release_worker(b.worker_id));
    assert_eq!(p.num_active_workers(), 2);
    assert_eq!(p.assigned_worker_indices(), vec![0, 2]);
    let finished = p.poll(&[false, true, true]);
    assert_eq!(finished, vec![c.worker_id]);
    assert_eq!(p.num_active_workers(), 1);
    assert_eq!(p.stop_all(), vec![0]);
    assert_eq!(p.num_active_workers(), 0);
    assert_eq!(p.worker_index(a.worker_id), None);
}

//! Scheduler behaviour: round-robin ordering, time slices, the pool's
//! lifecycle transitions, and the single-running guarantee.
use rvkernel::sched::{RRNode, RRScheduler, Status, ThreadPool};
use rvkernel::thread::Thread;

fn drain_time_slice(rr: &mut RRScheduler) {
    // a full slice: every tick but the last reports more time
    for _ in 0..9 {
        assert!(!rr.tick());
    }
    assert!(rr.tick());
}

#[test]
fn round_robin_visits_tasks_cyclically() {
    let mut rr = RRScheduler::new();
    rr.push(7);
    rr.push(8);
    rr.push(9);
    let mut order = Vec::new();
    for _ in 0..6 {
        let tid = rr.pick().expect("queue is not empty");
        order.push(tid);
        drain_time_slice(&mut rr);
        rr.yield_task(tid);
    }
    assert_eq!(order, vec![7, 8, 9, 7, 8, 9]);
}

#[test]
fn rr_node_holds_fields() {
    let n = RRNode::new(3, 10);
    assert_eq!(n.tid, 3);
    assert_eq!(n.time, 10);
}

#[test]
fn pick_leaves_task_queued() {
    let mut rr = RRScheduler::new();
    rr.push(1);
    assert_eq!(rr.pick(), Some(1));
    assert_eq!(rr.pick(), Some(1));
}

#[test]
fn empty_scheduler_reports_nothing() {
    let mut rr = RRScheduler::new();
    assert_eq!(rr.pick(), None);
    assert!(!rr.tick());
    rr.yield_task(5);
    rr.exit(5);
    assert_eq!(rr.pick(), None);
}

#[test]
fn exit_removes_from_queue() {
    let mut rr = RRScheduler::new();
    rr.push(1);
    rr.push(2);
    rr.push(3);
    rr.exit(2);
    assert_eq!(rr.pick(), Some(1));
    drain_time_slice(&mut rr);
    rr.yield_task(1);
    assert_eq!(rr.pick(), Some(3));
}

#[test]
fn partial_slice_is_kept_across_yield() {
    let mut rr = RRScheduler::new();
    rr.push(1);
    rr.push(2);
    // spend 4 ticks of task 1's slice, then yield it voluntarily
    for _ in 0..4 {
        assert!(!rr.tick());
    }
    rr.yield_task(1);
    assert_eq!(rr.pick(), Some(2));
    drain_time_slice(&mut rr);
    rr.yield_task(2);
    // task 1 resumes with the 6 remaining ticks of its slice
    assert_eq!(rr.pick(), Some(1));
    for _ in 0..5 {
        assert!(!rr.tick());
    }
    assert!(rr.tick());
}

#[test]
fn pool_lifecycle_and_single_running() {
    let mut pool = ThreadPool::new(4, RRScheduler::new());
    assert_eq!(pool.alloc_slot(), Some(0));
    pool.push(Thread::boot_thread());
    assert_eq!(pool.alloc_slot(), Some(1));
    pool.push(Thread::boot_thread());
    assert!(matches!(pool.threads[0].status, Status::Ready));
    assert!(matches!(pool.threads[1].status, Status::Ready));

    let (tid, thread) = pool.pick().expect("a task is ready");
    assert_eq!(tid, 0);
    assert!(matches!(pool.threads[0].status, Status::Running(0)));
    // no second slot reports Running while task 0 runs
    let running = pool
        .threads
        .iter()
        .filter(|t| matches!(t.status, Status::Running(_)))
        .count();
    assert_eq!(running, 1);

    // the slice expires; the thread comes back and rotates to the rear
    assert!(!pool.tick());
    for _ in 0..8 {
        assert!(!pool.tick());
    }
    assert!(pool.tick());
    pool.yield_task(tid, thread);
    assert!(matches!(pool.threads[0].status, Status::Ready));

    let (tid2, thread2) = pool.pick().expect("another task is ready");
    assert_eq!(tid2, 1);
    pool.exit(tid2, 42);
    assert!(matches!(pool.threads[1].status, Status::Exited(42)));
    pool.yield_task(tid2, thread2);
    // the exited slot keeps its status and becomes eligible for reuse
    assert!(matches!(pool.threads[1].status, Status::Exited(42)));
    assert_eq!(pool.alloc_slot(), Some(1));
}

#[test]
fn pool_pick_on_empty_queue_is_none() {
    let mut pool = ThreadPool::new(2, RRScheduler::new());
    assert!(pool.pick().is_none());
}

#[test]
fn pool_reuses_exited_slot() {
    let mut pool = ThreadPool::new(2, RRScheduler::new());
    pool.push(Thread::boot_thread());
    pool.push(Thread::boot_thread());
    assert_eq!(pool.alloc_slot(), None);
    let (tid, thread) = pool.pick().unwrap();
    pool.exit(tid, 0);
    pool.yield_task(tid, thread);
    assert_eq!(pool.alloc_slot(), Some(0));
    pool.push(Thread::boot_thread());
    assert!(matches!(pool.threads[0].status, Status::Ready));
}

//! Round-robin scheduling over a fixed-capacity thread pool. The pool's
//! slot table tracks each task's status and holds its suspended thread; the
//! policy keeps a strict FIFO queue of runnable task ids, each with its
//! remaining time slice.
use vstd::prelude::*;

use crate::config::TICKS_PER_TIME_SLICE;
use crate::thread::Thread;

verus! {

/// Index into the thread pool's slot table.
pub type TaskId = usize;

/// The value a thread exited with.
pub type ExitCode = usize;

/// Lifecycle state of one pool slot.
#[derive(Debug, Copy, Clone, PartialEq, Eq, Structural)]
pub enum Status {
    /// There is no thread in this slot.
    Uninitialized,
    /// Waiting in the ready queue.
    Ready,
    /// Currently executing on the processor.
    Running(TaskId),
    /// Blocked.
    Sleeping,
    /// Finished, with its exit code.
    Exited(ExitCode),
}

/// One entry of the round-robin queue: a task id and its remaining ticks.
#[derive(Debug, Copy, Clone, PartialEq, Eq, Structural)]
pub struct RRNode {
    pub tid: TaskId,
    pub time: usize,
}

impl RRNode {
    /// A node with a given remaining allotment.
    pub fn new(tid: TaskId, time: usize) -> (r: Self)
        ensures
            r.tid == tid,
            r.time == time,
    {
        RRNode { tid, time }
    }
}

/// What one full time slice does to the queue: the front task's slice is
/// refilled and the entry moves to the back.
pub open spec fn cycle_step(s: Seq<RRNode>, max: usize) -> Seq<RRNode> {
    if s.len() == 0 {
        s
    } else {
        s.subrange(1, s.len() as int).push(RRNode { tid: s[0].tid, time: max })
    }
}

/// Round-robin policy: strict FIFO among ready tasks, one full time slice
/// each, no priorities.
pub struct RRScheduler {
    /// The ready queue; the running task stays at the front.
    pub queue: Vec<RRNode>,
    /// Ticks in one full time slice.
    pub max_time: usize,
}

impl RRScheduler {
    /// Whether `tid` is queued.
    pub open spec fn contains_tid(self, tid: TaskId) -> bool {
        exists|i: int| 0 <= i < self.queue@.len() && self.queue@[i].tid == tid
    }

    /// Whether the task with (mathematical) id `t` is queued.
    pub open spec fn queued(self, t: int) -> bool {
        exists|i: int| 0 <= i < self.queue@.len() && (#[trigger] self.queue@[i]).tid as int == t
    }

    /// Queued ids are distinct and every remaining allotment is a positive
    /// number of ticks within one slice.
    pub open spec fn wf(self) -> bool {
        &&& self.max_time >= 1
        &&& forall|i: int, j: int|
            0 <= i < self.queue@.len() && 0 <= j < self.queue@.len() && i != j ==> (
            #[trigger] self.queue@[i]).tid != (#[trigger] self.queue@[j]).tid
        &&& forall|i: int|
            0 <= i < self.queue@.len() ==> 1 <= (#[trigger] self.queue@[i]).time
                <= self.max_time
    }

    /// An empty queue with the configured time slice.
    pub fn new() -> (r: Self)
        ensures
            r.wf(),
            r.queue@.len() == 0,
            r.max_time == TICKS_PER_TIME_SLICE,
    {
        RRScheduler { queue: Vec::new(), max_time: TICKS_PER_TIME_SLICE }
    }

    /// Append a new task with a full time-slice allotment.
    pub fn push(&mut self, tid: TaskId)
        requires
            old(self).wf(),
            !old(self).contains_tid(tid),
        ensures
            final(self).wf(),
            final(self).max_time == old(self).max_time,
            final(self).queue@ == old(self).queue@.push(
                (RRNode { tid, time: old(self).max_time }),
            ),
    {
        let t = self.max_time;
        self.queue.push(RRNode::new(tid, t));
        proof {
            assert forall|i: int, j: int|
                0 <= i < self.queue@.len() && 0 <= j < self.queue@.len() && i != j implies (
            #[trigger] self.queue@[i]).tid != (#[trigger] self.queue@[j]).tid by {
                if i == self.queue@.len() - 1 || j == self.queue@.len() - 1 {
                    assert(!old(self).contains_tid(tid));
                }
            }
        }
    }

    /// The front task, left in place: the running task stays queued.
    pub fn pick(&mut self) -> (r: Option<TaskId>)
        requires
            old(self).wf(),
        ensures
            *final(self) == *old(self),
            r == if old(self).queue@.len() == 0 {
                None::<TaskId>
            } else {
                Some(old(self).queue@[0].tid)
            },
    {
        if self.queue.len() == 0 {
            None
        } else {
            Some(self.queue[0].tid)
        }
    }

    /// Move `tid`'s entry, wherever it sits, to the back of the queue with
    /// its remaining allotment. An id that is not queued is ignored.
    pub fn yield_task(&mut self, tid: TaskId)
        requires
            old(self).wf(),
        ensures
            final(self).wf(),
            final(self).max_time == old(self).max_time,
            !old(self).contains_tid(tid) ==> final(self).queue@ == old(self).queue@,
            old(self).contains_tid(tid) ==> exists|i: int|
                0 <= i < old(self).queue@.len() && old(self).queue@[i].tid == tid && final(self).queue@ == old(self).queue@.remove(i).push(#[trigger] old(self).queue@[i]),
    {
        let mut i: usize = 0;
        let n = self.queue.len();
        while i < n
            invariant
                0 <= i <= n,
                n == self.queue@.len(),
                *self == *old(self),
                old(self).wf(),
                forall|k: int| 0 <= k < i ==> (#[trigger] self.queue@[k]).tid != tid,
            decreases n - i,
        {
            if self.queue[i].tid == tid {
                let node = self.queue[i];
                self.queue.remove(i);
                self.queue.push(node);
                proof {
                    let q0 = old(self).queue@;
                    assert(self.queue@ == q0.remove(i as int).push(q0[i as int]));
                    assert forall|a: int, b: int|
                        0 <= a < self.queue@.len() && 0 <= b < self.queue@.len() && a != b implies (
                    #[trigger] self.queue@[a]).tid != (#[trigger] self.queue@[b]).tid by {
                        lemma_remove_push_entries(q0, i as int, a);
                        lemma_remove_push_entries(q0, i as int, b);
                    }
                    assert forall|a: int|
                        0 <= a < self.queue@.len() implies 1 <= (#[trigger] self.queue@[a]).time
                        <= self.max_time by {
                        lemma_remove_push_entries(q0, i as int, a);
                    }
                }
                return ;
            }
            i += 1;
        }
        proof {
            if old(self).contains_tid(tid) {
                let k = choose|k: int|
                    0 <= k < old(self).queue@.len() && old(self).queue@[k].tid == tid;
                assert(self.queue@[k].tid != tid);
                assert(false);
            }
        }
    }

    /// Spend one tick of the front task's slice. When the slice is
    /// exhausted it reports true and refills the front entry's allotment,
    /// leaving it in place for the coming yield; otherwise it reports
    /// false. An empty queue reports false.
    pub fn tick(&mut self) -> (r: bool)
        requires
            old(self).wf(),
        ensures
            final(self).wf(),
            final(self).max_time == old(self).max_time,
            old(self).queue@.len() == 0 ==> r == false && final(self).queue@ == old(self).queue@,
            old(self).queue@.len() > 0 ==> {
                let front = old(self).queue@[0];
                if front.time == 1 {
                    r == true && final(self).queue@ == old(self).queue@.update(
                        0,
                        (RRNode { tid: front.tid, time: old(self).max_time }),
                    )
                } else {
                    r == false && final(self).queue@ == old(self).queue@.update(
                        0,
                        (RRNode { tid: front.tid, time: (front.time - 1) as usize }),
                    )
                }
            },
    {
        if self.queue.len() == 0 {
            return false;
        }
        let front = self.queue[0];
        if front.time == 1 {
            let t = self.max_time;
            self.queue.set(0, RRNode::new(front.tid, t));
            proof {
                lemma_update_keeps_tids(old(self).queue@, self.queue@, 0);
            }
            true
        } else {
            self.queue.set(0, RRNode::new(front.tid, front.time - 1));
            proof {
                lemma_update_keeps_tids(old(self).queue@, self.queue@, 0);
            }
            false
        }
    }

    /// Drop `tid`'s entry from wherever it sits in the queue; an id that is
    /// not queued is ignored.
    pub fn exit(&mut self, tid: TaskId)
        requires
            old(self).wf(),
        ensures
            final(self).wf(),
            final(self).max_time == old(self).max_time,
            !old(self).contains_tid(tid) ==> final(self).queue@ == old(self).queue@,
            old(self).contains_tid(tid) ==> exists|i: int|
                0 <= i < old(self).queue@.len() && (#[trigger] old(self).queue@[i]).tid == tid
                    && final(self).queue@ == old(self).queue@.remove(i),
            forall|j: int|
                0 <= j < final(self).queue@.len() ==> (#[trigger] final(self).queue@[j]).tid
                    != tid,
    {
        let mut i: usize = 0;
        let n = self.queue.len();
        while i < n
            invariant
                0 <= i <= n,
                n == self.queue@.len(),
                *self == *old(self),
                old(self).wf(),
                forall|k: int| 0 <= k < i ==> (#[trigger] self.queue@[k]).tid != tid,
            decreases n - i,
        {
            if self.queue[i].tid == tid {
                self.queue.remove(i);
                proof {
                    let q0 = old(self).queue@;
                    assert(self.queue@ == q0.remove(i as int));
                    assert forall|j: int|
                        0 <= j < self.queue@.len() implies (#[trigger] self.queue@[j]).tid
                        != tid by {
                        lemma_remove_entries(q0, i as int, j);
                    }
                    assert forall|a: int, b: int|
                        0 <= a < self.queue@.len() && 0 <= b < self.queue@.len() && a != b implies (
                    #[trigger] self.queue@[a]).tid != (#[trigger] self.queue@[b]).tid by {
                        lemma_remove_entries(q0, i as int, a);
                        lemma_remove_entries(q0, i as int, b);
                    }
                    assert forall|a: int|
                        0 <= a < self.queue@.len() implies 1 <= (#[trigger] self.queue@[a]).time
                        <= self.max_time by {
                        lemma_remove_entries(q0, i as int, a);
                    }
                }
                return ;
            }
            i += 1;
        }
        proof {
            if old(self).contains_tid(tid) {
                let k = choose|k: int|
                    0 <= k < old(self).queue@.len() && old(self).queue@[k].tid == tid;
                assert(self.queue@[k].tid != tid);
                assert(false);
            }
        }
    }
}

/// Each entry of `s.remove(i)` is an entry of `s` (at its old or shifted
/// index).
proof fn lemma_remove_entries(s: Seq<RRNode>, i: int, j: int)
    requires
        0 <= i < s.len(),
        0 <= j < s.len() - 1,
    ensures
        s.remove(i)[j] == if j < i {
            s[j]
        } else {
            s[j + 1]
        },
{
}

/// Each entry of `s.remove(i).push(s[i])` is an entry of `s`.
proof fn lemma_remove_push_entries(s: Seq<RRNode>, i: int, j: int)
    requires
        0 <= i < s.len(),
        0 <= j < s.len(),
    ensures
        s.remove(i).push(s[i])[j] == if j == s.len() - 1 {
            s[i]
        } else if j < i {
            s[j]
        } else {
            s[j + 1]
        },
{
    if j < s.len() - 1 {
        lemma_remove_entries(s, i, j);
    }
}

/// Tids are untouched by an in-place update at `k` that keeps the tid.
proof fn lemma_update_keeps_tids(s0: Seq<RRNode>, s1: Seq<RRNode>, k: int)
    requires
        0 <= k < s0.len(),
        s1 == s0.update(k, (RRNode { tid: s0[k].tid, time: s1[k].time })),
    ensures
        s1.len() == s0.len(),
        forall|i: int| 0 <= i < s0.len() ==> (#[trigger] s1[i]).tid == s0[i].tid,
{
}

/// Expiring the front task's slice and yielding it rotates the queue by
/// one: exactly the transformation `tick` (reporting time-up and refilling
/// the slice) followed by `yield` of the front id performs.
pub proof fn lemma_slice_expiry_rotates(q: Seq<RRNode>, max: usize)
    requires
        q.len() > 0,
    ensures
        ({
            let refilled = q.update(0, (RRNode { tid: q[0].tid, time: max }));
            refilled.remove(0).push(refilled[0]) == cycle_step(q, max)
        }),
{
    let refilled = q.update(0, (RRNode { tid: q[0].tid, time: max }));
    assert(refilled.remove(0) =~= q.subrange(1, q.len() as int));
    assert(refilled.remove(0).push(refilled[0]) =~= cycle_step(q, max));
}

/// Round-robin fairness: three tasks queued in order A, B, C, each run to
/// the end of a full time slice, are visited in the cyclic order A, B, C,
/// and after the three slices the queue has returned exactly to its
/// starting shape — so the schedule repeats A, B, C forever.
pub proof fn lemma_round_robin_fairness(a: TaskId, b: TaskId, c: TaskId, max: usize)
    ensures
        ({
            let s0 = seq![
                (RRNode { tid: a, time: max }),
                (RRNode { tid: b, time: max }),
                (RRNode { tid: c, time: max }),
            ];
            let s1 = cycle_step(s0, max);
            let s2 = cycle_step(s1, max);
            let s3 = cycle_step(s2, max);
            &&& s0[0].tid == a
            &&& s1[0].tid == b
            &&& s2[0].tid == c
            &&& s3 == s0
        }),
{
    let s0 = seq![
        (RRNode { tid: a, time: max }),
        (RRNode { tid: b, time: max }),
        (RRNode { tid: c, time: max }),
    ];
    let s1 = cycle_step(s0, max);
    let s2 = cycle_step(s1, max);
    let s3 = cycle_step(s2, max);
    assert(s1 =~= seq![
        (RRNode { tid: b, time: max }),
        (RRNode { tid: c, time: max }),
        (RRNode { tid: a, time: max }),
    ]);
    assert(s2 =~= seq![
        (RRNode { tid: c, time: max }),
        (RRNode { tid: a, time: max }),
        (RRNode { tid: b, time: max }),
    ]);
    assert(s3 =~= s0);
}

/// Per-slot bookkeeping: lifecycle status and, when the task is not
/// running, its suspended thread.
pub struct ThreadInfo {
    pub status: Status,
    pub thread: Option<Box<Thread>>,
}

impl Default for ThreadInfo {
    /// An empty slot.
    fn default() -> (r: Self)
        ensures
            r.status == Status::Uninitialized,
            r.thread is None,
    {
        ThreadInfo { status: Status::Uninitialized, thread: None }
    }
}

/// A fixed-capacity slot table indexed by task id, coupled to the
/// round-robin policy. At most one slot is ever Running, and a slot holds
/// its thread exactly when the processor does not.
pub struct ThreadPool {
    pub threads: Vec<ThreadInfo>,
    pub scheduler: RRScheduler,
}

impl ThreadPool {
    /// Whether slot `t` can be given to a new task.
    pub open spec fn eligible(self, t: int) -> bool {
        self.threads@[t].status is Uninitialized || self.threads@[t].status is Exited
    }

    /// Whether no slot is currently Running.
    pub open spec fn no_running(self) -> bool {
        forall|t: int|
            0 <= t < self.threads@.len() ==> !((#[trigger] self.threads@[t]).status is Running)
    }

    /// Structural invariant: every queued id names a Ready or Running slot;
    /// every Ready slot is queued and holds its thread; a Running slot is
    /// the queue's front and its thread is held by the processor.
    pub open spec fn wf(self) -> bool {
        &&& self.scheduler.wf()
        &&& forall|i: int|
            0 <= i < self.scheduler.queue@.len() ==> (#[trigger] self.scheduler.queue@[i]).tid
                < self.threads@.len() && (self.threads@[self.scheduler.queue@[i].tid as int].status
                is Ready || self.threads@[self.scheduler.queue@[i].tid as int].status is Running)
        &&& forall|t: int|
            0 <= t < self.threads@.len() && (#[trigger] self.threads@[t]).status is Ready
                ==> self.scheduler.queued(t) && self.threads@[t].thread is Some
        &&& forall|t: int|
            0 <= t < self.threads@.len() && (#[trigger] self.threads@[t]).status is Running
                ==> self.scheduler.queue@.len() > 0 && self.scheduler.queue@[0].tid == t
                && self.threads@[t].thread is None
    }

    /// A pool with `cap` empty slots and the given (empty) policy.
    pub fn new(cap: usize, scheduler: RRScheduler) -> (r: Self)
        requires
            scheduler.wf(),
            scheduler.queue@.len() == 0,
        ensures
            r.wf(),
            r.threads@.len() == cap,
            forall|t: int| 0 <= t < cap ==> (#[trigger] r.threads@[t]).status is Uninitialized,
            r.scheduler == scheduler,
            r.no_running(),
    {
        let mut threads: Vec<ThreadInfo> = Vec::new();
        let mut i: usize = 0;
        while i < cap
            invariant
                0 <= i <= cap,
                threads@.len() == i,
                forall|t: int|
                    0 <= t < i ==> (#[trigger] threads@[t]).status is Uninitialized
                        && threads@[t].thread is None,
            decreases cap - i,
        {
            threads.push(ThreadInfo::default());
            i += 1;
        }
        ThreadPool { threads, scheduler }
    }

    /// The first slot a new task could take, by linear scan.
    pub fn alloc_slot(&self) -> (r: Option<TaskId>)
        ensures
            match r {
                Some(tid) => tid < self.threads@.len() && self.eligible(tid as int) && forall|
                    k: int,
                |
                    0 <= k < tid ==> !self.eligible(k),
                None => forall|k: int| 0 <= k < self.threads@.len() ==> !self.eligible(k),
            },
    {
        let mut i: usize = 0;
        let n = self.threads.len();
        while i < n
            invariant
                0 <= i <= n,
                n == self.threads@.len(),
                forall|k: int| 0 <= k < i ==> !self.eligible(k),
            decreases n - i,
        {
            let eligible = match self.threads[i].status {
                Status::Uninitialized => true,
                Status::Exited(_) => true,
                _ => false,
            };
            if eligible {
                return Some(i);
            }
            i += 1;
        }
        None
    }

    /// Store a runnable thread in the first eligible slot, mark it Ready
    /// and enqueue it with the policy. The pool must have room.
    pub fn push(&mut self, t: Box<Thread>)
        requires
            old(self).wf(),
            exists|k: int| 0 <= k < old(self).threads@.len() && old(self).eligible(k),
        ensures
            final(self).wf(),
            final(self).threads@.len() == old(self).threads@.len(),
            final(self).scheduler.max_time == old(self).scheduler.max_time,
            forall|u: int|
                0 <= u < old(self).threads@.len() && !old(self).eligible(u) ==> final(self).threads@[u] == old(self).threads@[u],
            forall|u: int|
                0 <= u < old(self).threads@.len() && (#[trigger] final(self).threads@[u]).status
                    is Running ==> old(self).threads@[u].status is Running,
            forall|tid: int|
                0 <= tid < old(self).threads@.len() && old(self).eligible(tid) && (forall|k: int|
                    0 <= k < tid ==> !old(self).eligible(k)) ==> {
                    &&& (#[trigger] final(self).threads@[tid]).status is Ready
                    &&& final(self).threads@[tid].thread == Some(t)
                    &&& forall|u: int|
                        0 <= u < old(self).threads@.len() && u != tid ==> final(self).threads@[u]
                            == old(self).threads@[u]
                    &&& final(self).scheduler.queue@ == old(self).scheduler.queue@.push(
                        (RRNode { tid: tid as TaskId, time: old(self).scheduler.max_time }),
                    )
                },
    {
        let tid = match self.alloc_slot() {
            Some(tid) => tid,
            None => {
                proof {
                    let k = choose|k: int|
                        0 <= k < old(self).threads@.len() && old(self).eligible(k);
                    assert(false);
                }
                0
            },
        };
        proof {
            // an eligible slot is neither Ready nor Running, so it cannot be
            // queued
            if self.scheduler.contains_tid(tid) {
                let i = choose|i: int|
                    0 <= i < self.scheduler.queue@.len() && self.scheduler.queue@[i].tid == tid;
                assert(false);
            }
        }
        let info = self.threads.remove(tid);
        self.threads.insert(tid, ThreadInfo { status: Status::Ready, thread: Some(t) });
        self.scheduler.push(tid);
        proof {
            lemma_remove_insert_is_update(old(self).threads@, tid as int);
            assert forall|i: int|
                0 <= i < self.scheduler.queue@.len() implies (
            #[trigger] self.scheduler.queue@[i]).tid < self.threads@.len() && (self.threads@[
            self.scheduler.queue@[i].tid as int].status is Ready || self.threads@[
            self.scheduler.queue@[i].tid as int].status is Running) by {
                if i < self.scheduler.queue@.len() - 1 {
                    assert(self.scheduler.queue@[i] == old(self).scheduler.queue@[i]);
                }
            }
            assert forall|u: int|
                0 <= u < self.threads@.len() && (#[trigger] self.threads@[u]).status is Ready
                    implies self.scheduler.queued(u) && self.threads@[u].thread is Some by {
                if u != tid {
                    assert(old(self).threads@[u].status is Ready);
                    assert(old(self).scheduler.queued(u));
                    let i = choose|i: int|
                        0 <= i < old(self).scheduler.queue@.len() && (#[trigger] old(
                            self,
                        ).scheduler.queue@[i]).tid as int == u;
                    assert(self.scheduler.queue@[i].tid as int == u);
                } else {
                    assert(self.scheduler.queue@[self.scheduler.queue@.len() - 1].tid == tid);
                }
            }
        }
    }

    /// Hand the front runnable task out to run: its slot is marked Running
    /// and its thread leaves the pool. `None` when nothing is runnable.
    pub fn pick(&mut self) -> (r: Option<(TaskId, Box<Thread>)>)
        requires
            old(self).wf(),
            old(self).no_running(),
        ensures
            final(self).wf(),
            final(self).threads@.len() == old(self).threads@.len(),
            final(self).scheduler == old(self).scheduler,
            match r {
                Some((tid, thread)) => {
                    &&& old(self).scheduler.queue@.len() > 0
                    &&& tid == old(self).scheduler.queue@[0].tid
                    &&& old(self).threads@[tid as int].thread == Some(thread)
                    &&& (#[trigger] final(self).threads@[tid as int]).status == Status::Running(
                        tid,
                    )
                    &&& final(self).threads@[tid as int].thread is None
                    &&& forall|u: int|
                        0 <= u < old(self).threads@.len() && u != tid ==> final(self).threads@[u]
                            == old(self).threads@[u]
                },
                None => {
                    &&& old(self).scheduler.queue@.len() == 0
                    &&& final(self).threads@ == old(self).threads@
                },
            },
    {
        let tid = match self.scheduler.pick() {
            Some(tid) => tid,
            None => {
                return None;
            },
        };
        proof {
            assert(old(self).scheduler.queue@[0].tid == tid);
            assert(old(self).threads@[tid as int].status is Ready);
        }
        let info = self.threads.remove(tid);
        let thread = match info.thread {
            Some(t) => t,
            None => {
                proof {
                    assert(false);
                }
                Thread::boot_thread()
            },
        };
        self.threads.insert(tid, ThreadInfo { status: Status::Running(tid), thread: None });
        proof {
            lemma_remove_insert_is_update(old(self).threads@, tid as int);
        }
        Some((tid, thread))
    }

    /// Return a previously running thread to its slot; if the slot was
    /// Running it becomes Ready and rotates to the back of the queue.
    pub fn yield_task(&mut self, tid: TaskId, thread: Box<Thread>)
        requires
            old(self).wf(),
            tid < old(self).threads@.len(),
        ensures
            final(self).wf(),
            final(self).threads@.len() == old(self).threads@.len(),
            final(self).scheduler.max_time == old(self).scheduler.max_time,
            final(self).threads@[tid as int].thread == Some(thread),
            old(self).threads@[tid as int].status is Running ==> (#[trigger] final(self).threads@[tid as int]).status is Ready && final(self).scheduler.queue@ == old(self).scheduler.queue@.remove(0).push(old(self).scheduler.queue@[0]) && final(self).no_running(),
            !(old(self).threads@[tid as int].status is Running) ==> final(self).threads@[tid as int].status == old(self).threads@[tid as int].status && final(self).scheduler == old(self).scheduler,
            forall|u: int|
                0 <= u < old(self).threads@.len() && u != tid ==> final(self).threads@[u] == old(self).threads@[u],
    {
        let info = self.threads.remove(tid);
        let was_running = match info.status {
            Status::Running(_) => true,
            _ => false,
        };
        let new_status = if was_running {
            Status::Ready
        } else {
            info.status
        };
        self.threads.insert(tid, ThreadInfo { status: new_status, thread: Some(thread) });
        proof {
            lemma_remove_insert_is_update(old(self).threads@, tid as int);
        }
        if was_running {
            proof {
                assert(old(self).threads@[tid as int].status is Running);
                assert(old(self).scheduler.queue@[0].tid == tid);
                assert(self.scheduler.contains_tid(tid));
            }
            let ghost q0 = self.scheduler.queue@;
            self.scheduler.yield_task(tid);
            proof {
                let i = choose|i: int|
                    0 <= i < q0.len() && q0[i].tid == tid && self.scheduler.queue@ == q0.remove(
                        i,
                    ).push(q0[i]);
                assert(q0[0].tid == tid);
                assert(i == 0);
                assert forall|u: int|
                    0 <= u < self.threads@.len() && (#[trigger] self.threads@[u]).status
                        is Ready implies self.scheduler.queued(u) && self.threads@[u].thread
                    is Some by {
                    if u == tid {
                        assert(self.scheduler.queue@[self.scheduler.queue@.len() - 1].tid == tid);
                    } else {
                        assert(old(self).threads@[u].status is Ready);
                        assert(old(self).scheduler.queued(u));
                        let k = choose|k: int|
                            0 <= k < q0.len() && (#[trigger] q0[k]).tid as int == u;
                        assert(k != 0);
                        lemma_remove_push_entries(q0, 0, k - 1);
                        assert(self.scheduler.queue@[k - 1].tid as int == u);
                    }
                }
                assert forall|i2: int|
                    0 <= i2 < self.scheduler.queue@.len() implies (
                #[trigger] self.scheduler.queue@[i2]).tid < self.threads@.len() && (self.threads@[
                self.scheduler.queue@[i2].tid as int].status is Ready || self.threads@[
                self.scheduler.queue@[i2].tid as int].status is Running) by {
                    lemma_remove_push_entries(q0, 0, i2);
                }
                assert forall|u: int|
                    0 <= u < self.threads@.len() && (#[trigger] self.threads@[u]).status
                        is Running implies self.scheduler.queue@.len() > 0
                    && self.scheduler.queue@[0].tid == u && self.threads@[u].thread is None by {
                    assert(u != tid);
                    assert(old(self).threads@[u].status is Running);
                    assert(old(self).scheduler.queue@[0].tid == u);
                    assert(false);
                }
            }
        } else {
            proof {
                assert forall|u: int|
                    0 <= u < self.threads@.len() && (#[trigger] self.threads@[u]).status
                        is Ready implies self.scheduler.queued(u) && self.threads@[u].thread
                    is Some by {
                    assert(old(self).threads@[u].status is Ready);
                }
            }
        }
    }

    /// Spend one tick of the current time slice; true means the slice is
    /// exhausted and the caller must switch back to the dispatch loop.
    pub fn tick(&mut self) -> (r: bool)
        requires
            old(self).wf(),
        ensures
            final(self).wf(),
            final(self).threads@ == old(self).threads@,
            final(self).scheduler.max_time == old(self).scheduler.max_time,
            old(self).scheduler.queue@.len() == 0 ==> r == false && final(self).scheduler.queue@
                == old(self).scheduler.queue@,
            old(self).scheduler.queue@.len() > 0 ==> {
                let front = old(self).scheduler.queue@[0];
                if front.time == 1 {
                    r == true && final(self).scheduler.queue@ == old(self).scheduler.queue@.update(
                        0,
                        (RRNode { tid: front.tid, time: old(self).scheduler.max_time }),
                    )
                } else {
                    r == false && final(self).scheduler.queue@ == old(self).scheduler.queue@.update(
                        0,
                        (RRNode { tid: front.tid, time: (front.time - 1) as usize }),
                    )
                }
            },
    {
        let ghost q0 = self.scheduler.queue@;
        let r = self.scheduler.tick();
        proof {
            if q0.len() > 0 {
                lemma_update_keeps_tids(q0, self.scheduler.queue@, 0);
                assert forall|u: int|
                    0 <= u < self.threads@.len() && (#[trigger] self.threads@[u]).status
                        is Ready implies self.scheduler.queued(u) && self.threads@[u].thread
                    is Some by {
                    assert(old(self).scheduler.queued(u));
                    let k = choose|k: int| 0 <= k < q0.len() && (#[trigger] q0[k]).tid as int == u;
                    assert(self.scheduler.queue@[k].tid as int == u);
                }
            }
        }
        r
    }

    /// Mark a task Exited with its code and drop it from the ready queue.
    pub fn exit(&mut self, tid: TaskId, code: ExitCode)
        requires
            old(self).wf(),
            tid < old(self).threads@.len(),
        ensures
            final(self).wf(),
            final(self).threads@.len() == old(self).threads@.len(),
            final(self).scheduler.max_time == old(self).scheduler.max_time,
            final(self).threads@[tid as int].status == Status::Exited(code),
            final(self).threads@[tid as int].thread == old(self).threads@[tid as int].thread,
            forall|u: int|
                0 <= u < old(self).threads@.len() && u != tid ==> final(self).threads@[u] == old(self).threads@[u],
            forall|j: int|
                0 <= j < final(self).scheduler.queue@.len() ==> (#[trigger] final(self).scheduler.queue@[j]).tid != tid,
            !old(self).scheduler.contains_tid(tid) ==> final(self).scheduler.queue@ == old(self).scheduler.queue@,
            old(self).scheduler.contains_tid(tid) ==> exists|i: int|
                0 <= i < old(self).scheduler.queue@.len() && (#[trigger] old(self).scheduler.queue@[i]).tid == tid && final(self).scheduler.queue@ == old(self).scheduler.queue@.remove(i),
    {
        let info = self.threads.remove(tid);
        self.threads.insert(tid, ThreadInfo { status: Status::Exited(code), thread: info.thread });
        proof {
            lemma_remove_insert_is_update(old(self).threads@, tid as int);
        }
        let ghost q0 = self.scheduler.queue@;
        self.scheduler.exit(tid);
        proof {
            if old(self).scheduler.contains_tid(tid) {
                let i = choose|i: int|
                    0 <= i < q0.len() && (#[trigger] q0[i]).tid == tid && self.scheduler.queue@
                        == q0.remove(i);
                assert forall|i2: int|
                    0 <= i2 < self.scheduler.queue@.len() implies (
                #[trigger] self.scheduler.queue@[i2]).tid < self.threads@.len() && (self.threads@[
                self.scheduler.queue@[i2].tid as int].status is Ready || self.threads@[
                self.scheduler.queue@[i2].tid as int].status is Running) by {
                    lemma_remove_entries(q0, i, i2);
                }
                assert forall|u: int|
                    0 <= u < self.threads@.len() && (#[trigger] self.threads@[u]).status
                        is Ready implies self.scheduler.queued(u) && self.threads@[u].thread
                    is Some by {
                    assert(old(self).threads@[u].status is Ready);
                    assert(old(self).scheduler.queued(u));
                    let k = choose|k: int| 0 <= k < q0.len() && (#[trigger] q0[k]).tid as int == u;
                    assert(u != tid);
                    assert(k != i);
                    if k < i {
                        lemma_remove_entries(q0, i, k);
                        assert(self.scheduler.queue@[k].tid as int == u);
                    } else {
                        lemma_remove_entries(q0, i, k - 1);
                        assert(self.scheduler.queue@[k - 1].tid as int == u);
                    }
                }
                assert forall|u: int|
                    0 <= u < self.threads@.len() && (#[trigger] self.threads@[u]).status
                        is Running implies self.scheduler.queue@.len() > 0
                    && self.scheduler.queue@[0].tid == u && self.threads@[u].thread is None by {
                    assert(u != tid);
                    assert(old(self).threads@[u].status is Running);
                    assert(q0[0].tid == u);
                    assert(i != 0);
                    lemma_remove_entries(q0, i, 0);
                }
            }
        }
    }
}

/// Removing and re-inserting at the same slot is an in-place update.
proof fn lemma_remove_insert_is_update(s: Seq<ThreadInfo>, i: int)
    requires
        0 <= i < s.len(),
    ensures
        forall|v: ThreadInfo| (#[trigger] s.remove(i).insert(i, v)) == s.update(i, v),
{
    assert forall|v: ThreadInfo| (#[trigger] s.remove(i).insert(i, v)) == s.update(i, v) by {
        assert(s.remove(i).insert(i, v) =~= s.update(i, v));
    }
}

/// At no point do two task ids simultaneously report Running: any Running
/// slot is pinned to the queue's front, so two Running slots would be the
/// same slot.
pub proof fn lemma_single_owner(pool: ThreadPool, i: int, j: int)
    requires
        pool.wf(),
        0 <= i < pool.threads@.len(),
        0 <= j < pool.threads@.len(),
        pool.threads@[i].status is Running,
        pool.threads@[j].status is Running,
    ensures
        i == j,
{
    assert(pool.scheduler.queue@[0].tid == i);
    assert(pool.scheduler.queue@[0].tid == j);
}

} // verus!

//! The per-CPU coordinator. It owns the thread pool, the idle thread, and
//! the record of which task currently executes. The decisions of the idle
//! loop — pick a task, hand it back after it returns, test the time slice,
//! mark an exit — are made here; the hardware context switches that act on
//! those decisions are the unverified glue's concern.
use vstd::prelude::*;

use crate::sched::{ExitCode, RRNode, Status, TaskId, ThreadPool};
use crate::thread::Thread;

verus! {

/// The coordinator's state once initialized.
pub struct ProcessorInner {
    /// The pool of all tasks.
    pub pool: Box<ThreadPool>,
    /// The thread running the dispatch loop.
    pub idle: Box<Thread>,
    /// The task currently executing, with its thread, while it runs.
    pub cur: Option<(TaskId, Box<Thread>)>,
}

/// The single per-CPU coordinator, lazily initialized once.
pub struct Processor {
    pub inner: Option<ProcessorInner>,
}

impl Processor {
    /// Whether the coordinator has been initialized.
    pub open spec fn is_init(self) -> bool {
        self.inner is Some
    }

    /// The owned pool, once initialized.
    pub open spec fn pool(self) -> ThreadPool {
        *self.inner.unwrap().pool
    }

    /// The current task record, once initialized.
    pub open spec fn cur(self) -> Option<(TaskId, Box<Thread>)> {
        self.inner.unwrap().cur
    }

    /// Structural invariant: the pool is well-formed; while no task is
    /// recorded as current no slot is Running, and the current task's slot
    /// is the Running one.
    pub open spec fn wf(self) -> bool {
        self.inner matches Some(inner) ==> {
            &&& inner.pool.wf()
            &&& (inner.cur is None ==> inner.pool.no_running())
            &&& (inner.cur matches Some((tid, _)) ==> tid < inner.pool.threads@.len()
                && inner.pool.threads@[tid as int].status == Status::Running(tid))
        }
    }

    /// An uninitialized coordinator.
    pub fn new() -> (r: Self)
        ensures
            !r.is_init(),
            r.wf(),
    {
        Processor { inner: None }
    }

    /// One-time initialization with the pool and the idle thread.
    pub fn init(&mut self, pool: Box<ThreadPool>, idle: Box<Thread>)
        requires
            pool.wf(),
            pool.no_running(),
        ensures
            final(self).is_init(),
            final(self).wf(),
            final(self).inner matches Some(inner) && inner.pool == pool && inner.idle == idle
                && inner.cur is None,
    {
        self.inner = Some(ProcessorInner { pool, idle, cur: None });
    }

    /// Queue a new runnable thread: it is stored Ready in the pool's first
    /// eligible slot and enqueued with a full time slice; nothing else
    /// changes.
    pub fn push(&mut self, thread: Box<Thread>)
        requires
            old(self).is_init(),
            old(self).wf(),
            exists|k: int|
                0 <= k < old(self).pool().threads@.len() && old(self).pool().eligible(k),
        ensures
            final(self).is_init(),
            final(self).wf(),
            final(self).cur() == old(self).cur(),
            final(self).inner.unwrap().idle == old(self).inner.unwrap().idle,
            final(self).pool().threads@.len() == old(self).pool().threads@.len(),
            final(self).pool().scheduler.max_time == old(self).pool().scheduler.max_time,
            forall|tid: int|
                0 <= tid < old(self).pool().threads@.len() && old(self).pool().eligible(tid) && (
                forall|k: int| 0 <= k < tid ==> !old(self).pool().eligible(k)) ==> {
                    &&& (#[trigger] final(self).pool().threads@[tid]).status is Ready
                    &&& final(self).pool().threads@[tid].thread == Some(thread)
                    &&& forall|u: int|
                        0 <= u < old(self).pool().threads@.len() && u != tid ==> final(self).pool().threads@[u] == old(self).pool().threads@[u]
                    &&& final(self).pool().scheduler.queue@ == old(self).pool().scheduler.queue@.push(
                        (RRNode {
                            tid: tid as TaskId,
                            time: old(self).pool().scheduler.max_time,
                        }),
                    )
                },
    {
        let inner = match &mut self.inner {
            Some(inner) => inner,
            None => {
                proof {
                    assert(false);
                }
                return ;
            },
        };
        inner.pool.push(thread);
        proof {
            assert(self.wf()) by {
                let c = self.inner.unwrap().cur;
                let p0 = old(self).inner.unwrap().pool;
                let p1 = self.inner.unwrap().pool;
                if c is Some {
                    let tid = c.unwrap().0;
                    assert(p0.threads@[tid as int].status == Status::Running(tid));
                    assert(!p0.eligible(tid as int));
                    assert(p1.threads@[tid as int] == p0.threads@[tid as int]);
                }
                if self.inner.unwrap().cur is None {
                    assert forall|t: int|
                        0 <= t < p1.threads@.len() implies !((#[trigger] p1.threads@[t]).status
                        is Running) by {
                        if !p0.eligible(t) {
                            assert(p1.threads@[t] == p0.threads@[t]);
                        } else {
                            if p1.threads@[t].status is Running {
                                assert(p1.scheduler.queue@[0].tid == t);
                            }
                        }
                    }
                }
            }
        }
    }

    /// The dispatch decision of one idle-loop turn: exactly when a task is
    /// ready, the queue's front task becomes current — its slot marked
    /// Running, its thread moved from the pool into the current record —
    /// and its id is handed out so the glue can switch into it. `None` when
    /// nothing is runnable and the CPU should sleep until the next
    /// interrupt.
    pub fn pick_current(&mut self) -> (r: Option<TaskId>)
        requires
            old(self).is_init(),
            old(self).wf(),
            old(self).cur() is None,
        ensures
            final(self).is_init(),
            final(self).wf(),
            final(self).inner.unwrap().idle == old(self).inner.unwrap().idle,
            final(self).pool().scheduler == old(self).pool().scheduler,
            r is Some <==> old(self).pool().scheduler.queue@.len() > 0,
            match r {
                Some(tid) => {
                    &&& tid == old(self).pool().scheduler.queue@[0].tid
                    &&& final(self).cur() matches Some((t, th)) && t == tid && old(self).pool().threads@[tid as int].thread == Some(th)
                    &&& final(self).pool().threads@[tid as int].status == Status::Running(tid)
                    &&& final(self).pool().threads@[tid as int].thread is None
                    &&& forall|u: int|
                        0 <= u < old(self).pool().threads@.len() && u != tid ==> final(self).pool().threads@[u] == old(self).pool().threads@[u]
                },
                None => {
                    &&& final(self).cur() is None
                    &&& final(self).pool().threads@ == old(self).pool().threads@
                },
            },
    {
        let inner = match &mut self.inner {
            Some(inner) => inner,
            None => {
                proof {
                    assert(false);
                }
                return None;
            },
        };
        match inner.pool.pick() {
            Some((tid, thread)) => {
                inner.cur = Some((tid, thread));
                Some(tid)
            },
            None => None,
        }
    }

    /// The reclaim decision after a switch back to the idle thread: the
    /// current task's thread goes back into its slot, the slot returns to
    /// Ready, and its queue entry rotates to the back; afterwards nothing
    /// is Running.
    pub fn reclaim_current(&mut self)
        requires
            old(self).is_init(),
            old(self).wf(),
            old(self).cur() is Some,
        ensures
            final(self).is_init(),
            final(self).wf(),
            final(self).cur() is None,
            final(self).pool().no_running(),
            final(self).inner.unwrap().idle == old(self).inner.unwrap().idle,
            ({
                let tid = old(self).cur().unwrap().0;
                let th = old(self).cur().unwrap().1;
                let p0 = old(self).pool();
                let p1 = final(self).pool();
                &&& p1.threads@[tid as int].status is Ready
                &&& p1.threads@[tid as int].thread == Some(th)
                &&& forall|u: int|
                    0 <= u < p0.threads@.len() && u != tid ==> p1.threads@[u] == p0.threads@[u]
                &&& p1.scheduler.queue@ == p0.scheduler.queue@.remove(0).push(
                    p0.scheduler.queue@[0],
                )
                &&& p1.scheduler.max_time == p0.scheduler.max_time
            }),
    {
        let inner = match &mut self.inner {
            Some(inner) => inner,
            None => {
                proof {
                    assert(false);
                }
                return ;
            },
        };
        let cur = inner.cur.take();
        match cur {
            Some((tid, thread)) => {
                proof {
                    assert(inner.pool.threads@[tid as int].status == Status::Running(tid));
                }
                inner.pool.yield_task(tid, thread);
                proof {
                    assert forall|t: int|
                        0 <= t < inner.pool.threads@.len() implies !((
                    #[trigger] inner.pool.threads@[t]).status is Running) by {
                        if t != tid {
                            assert(old(self).pool().threads@[t] == inner.pool.threads@[t]);
                            if inner.pool.threads@[t].status is Running {
                                crate::sched::lemma_single_owner(
                                    old(self).pool(),
                                    t,
                                    tid as int,
                                );
                            }
                        }
                    }
                }
            },
            None => {
                proof {
                    assert(false);
                }
            },
        }
    }

    /// The preemption decision on a timer tick: when a task is current, one
    /// tick of its slice is spent and the result says exactly whether the
    /// slice is exhausted — in which case the glue must switch from it back
    /// to the idle thread, and the refilled entry waits at the front for
    /// the coming reclaim. Without a current task nothing changes.
    pub fn tick(&mut self) -> (r: bool)
        requires
            old(self).is_init(),
            old(self).wf(),
        ensures
            final(self).is_init(),
            final(self).wf(),
            final(self).cur() == old(self).cur(),
            final(self).inner.unwrap().idle == old(self).inner.unwrap().idle,
            final(self).pool().threads@ == old(self).pool().threads@,
            final(self).pool().scheduler.max_time == old(self).pool().scheduler.max_time,
            old(self).cur() is None ==> r == false && final(self).pool() == old(self).pool(),
            old(self).cur() is Some ==> ({
                let q = old(self).pool().scheduler.queue@;
                let max = old(self).pool().scheduler.max_time;
                &&& q.len() > 0
                &&& (if q[0].time == 1 {
                    r == true && final(self).pool().scheduler.queue@ == q.update(
                        0,
                        (RRNode { tid: q[0].tid, time: max }),
                    )
                } else {
                    r == false && final(self).pool().scheduler.queue@ == q.update(
                        0,
                        (RRNode { tid: q[0].tid, time: (q[0].time - 1) as usize }),
                    )
                })
            }),
    {
        let inner = match &mut self.inner {
            Some(inner) => inner,
            None => {
                proof {
                    assert(false);
                }
                return false;
            },
        };
        match &inner.cur {
            Some(_) => {
                proof {
                    let tid = old(self).cur().unwrap().0;
                    assert(old(self).pool().threads@[tid as int].status == Status::Running(tid));
                }
                let r = inner.pool.tick();
                proof {
                    let tid = self.inner.unwrap().cur.unwrap().0;
                    assert(self.inner.unwrap().pool.threads@[tid as int].status
                        == Status::Running(tid));
                }
                r
            },
            None => false,
        }
    }

    /// The bookkeeping of a task exit: the current task's slot is marked
    /// Exited with its code, its entry leaves the front of the ready queue,
    /// and every other slot is untouched. The glue then switches to idle
    /// and never returns here.
    pub fn exit(&mut self, code: ExitCode)
        requires
            old(self).is_init(),
            old(self).wf(),
            old(self).cur() is Some,
        ensures
            final(self).is_init(),
            final(self).wf(),
            final(self).cur() is None,
            final(self).inner.unwrap().idle == old(self).inner.unwrap().idle,
            ({
                let tid = old(self).cur().unwrap().0;
                let p0 = old(self).pool();
                let p1 = final(self).pool();
                &&& p1.threads@[tid as int].status == Status::Exited(code)
                &&& p1.threads@[tid as int].thread == p0.threads@[tid as int].thread
                &&& forall|u: int|
                    0 <= u < p0.threads@.len() && u != tid ==> p1.threads@[u] == p0.threads@[u]
                &&& p1.scheduler.queue@ == p0.scheduler.queue@.remove(0)
                &&& p1.scheduler.max_time == p0.scheduler.max_time
            }),
    {
        let inner = match &mut self.inner {
            Some(inner) => inner,
            None => {
                proof {
                    assert(false);
                }
                return ;
            },
        };
        let cur = inner.cur.take();
        match cur {
            Some((tid, _thread)) => {
                proof {
                    assert(inner.pool.threads@[tid as int].status == Status::Running(tid));
                    assert(inner.pool.scheduler.queue@[0].tid == tid);
                }
                let ghost q0 = inner.pool.scheduler.queue@;
                inner.pool.exit(tid, code);
                proof {
                    // the exiting task sat at the queue's front, so its
                    // removal takes exactly the front entry
                    let i = choose|i: int|
                        0 <= i < q0.len() && (#[trigger] q0[i]).tid == tid
                            && inner.pool.scheduler.queue@ == q0.remove(i);
                    assert(q0[0].tid == tid);
                    assert(i == 0);
                    assert forall|t: int|
                        0 <= t < inner.pool.threads@.len() implies !((
                    #[trigger] inner.pool.threads@[t]).status is Running) by {
                        if t != tid && inner.pool.threads@[t].status is Running {
                            crate::sched::lemma_single_owner(
                                old(self).pool(),
                                t,
                                tid as int,
                            );
                        }
                    }
                }
            },
            None => {
                proof {
                    assert(false);
                }
            },
        }
    }
}

} // verus!

//! Threads: a saved context plus a dedicated kernel stack, and the
//! builder used to fabricate a new thread with up to eight argument words
//! preloaded into its trap frame.
use vstd::prelude::*;

use crate::config::KERNEL_STACK_SIZE;
use crate::context::{fabricated, fabricated_with_args, Context, ContextContent, TrapFrame, CONTEXT_CONTENT_BYTES};

verus! {

/// Dedicated stack memory for one thread, identified by its base address.
/// The memory itself is provided by the kernel heap; this value records
/// where it lies.
pub struct KStack {
    /// Lowest address of the stack memory.
    pub bottom: u64,
}

impl KStack {
    /// A stack whose memory begins at `bottom`.
    pub fn new(bottom: u64) -> (r: Self)
        requires
            bottom + KERNEL_STACK_SIZE <= u64::MAX,
        ensures
            r.bottom == bottom,
    {
        KStack { bottom }
    }

    /// The stack top: execution starts with the stack pointer here.
    pub fn top(&self) -> (r: u64)
        requires
            self.bottom + KERNEL_STACK_SIZE <= u64::MAX,
        ensures
            r == self.bottom + KERNEL_STACK_SIZE,
    {
        self.bottom + KERNEL_STACK_SIZE
    }
}

/// A suspended execution context together with its kernel stack.
pub struct Thread {
    /// The saved context the next switch into this thread resumes.
    pub context: Context,
    /// The thread's kernel stack.
    pub kstack: KStack,
}

impl Thread {
    /// Begin fabricating a thread, with no argument words yet.
    pub fn with_args() -> (r: ThreadArgs)
        ensures
            r.n == 0,
            r.args@.len() == 8,
            forall|i: int| 0 <= i < 8 ==> r.args@[i] == 0,
    {
        ThreadArgs { n: 0, args: vec![0u64; 8] }
    }

    /// Fabricate a thread with no arguments that starts at `entry`; the
    /// stack memory, page-table root, trampoline address and current status
    /// word come from the caller.
    pub fn new(entry: u64, stack_bottom: u64, satp: u64, trapret: u64, sstatus_in: u64) -> (r:
        Box<Thread>)
        requires
            stack_bottom + KERNEL_STACK_SIZE <= u64::MAX,
            stack_bottom + KERNEL_STACK_SIZE >= CONTEXT_CONTENT_BYTES,
        ensures
            fabricated(
                r.context.content,
                entry,
                (stack_bottom + KERNEL_STACK_SIZE) as u64,
                satp,
                trapret,
                sstatus_in,
            ),
            r.kstack.bottom == stack_bottom,
    {
        let ta = Thread::with_args();
        let ghost zeros = ta.args@;
        let r = ta.create(entry, stack_bottom, satp, trapret, sstatus_in);
        proof {
            assert(zeros =~= Seq::new(8, |i: int| 0u64));
        }
        r
    }

    /// The zero-initialized thread standing for the boot flow of control:
    /// its context is filled in by the first switch away from it, so nothing
    /// meaningful needs to be stored beforehand.
    pub fn boot_thread() -> (r: Box<Thread>)
        ensures
            r.context.content.wf(),
            r.kstack.bottom == 0,
    {
        Box::new(
            Thread {
                context: Context {
                    addr: 0,
                    content: ContextContent {
                        ra: 0,
                        satp: 0,
                        s: vec![0u64; 12],
                        tf: TrapFrame::zeroed(),
                    },
                },
                kstack: KStack { bottom: 0 },
            },
        )
    }

    /// Preload up to eight argument words into the saved trap frame's
    /// argument registers.
    pub fn set_args(&mut self, args: &Vec<u64>)
        requires
            old(self).context.content.wf(),
            args@.len() <= 8,
        ensures
            final(self).context.content.wf(),
            final(self).kstack == old(self).kstack,
            final(self).context.addr == old(self).context.addr,
            forall|i: int|
                0 <= i < args@.len() ==> final(self).context.content.tf.x@[10 + i] == args@[i],
            forall|i: int|
                0 <= i < 32 && !(10 <= i < 10 + args@.len())
                    ==> final(self).context.content.tf.x@[i] == old(self).context.content.tf.x@[i],
            final(self).context.content.tf.sstatus == old(self).context.content.tf.sstatus,
            final(self).context.content.tf.sepc == old(self).context.content.tf.sepc,
            final(self).context.content.ra == old(self).context.content.ra,
            final(self).context.content.satp == old(self).context.content.satp,
    {
        let mut i: usize = 0;
        while i < args.len()
            invariant
                0 <= i <= args@.len(),
                args@.len() <= 8,
                self.context.content.wf(),
                self.kstack == old(self).kstack,
                self.context.addr == old(self).context.addr,
                forall|k: int| 0 <= k < i ==> self.context.content.tf.x@[10 + k] == args@[k],
                forall|k: int|
                    0 <= k < 32 && !(10 <= k < 10 + i) ==> self.context.content.tf.x@[k] == old(
                        self,
                    ).context.content.tf.x@[k],
                self.context.content.tf.sstatus == old(self).context.content.tf.sstatus,
                self.context.content.tf.sepc == old(self).context.content.tf.sepc,
                self.context.content.ra == old(self).context.content.ra,
                self.context.content.satp == old(self).context.content.satp,
            decreases args@.len() - i,
        {
            let v = args[i];
            self.context.content.tf.x.set(10 + i, v);
            i += 1;
        }
    }
}

/// Builder collecting up to eight argument words for a new thread.
pub struct ThreadArgs {
    /// How many argument words have been supplied.
    pub n: usize,
    /// The argument words (always eight slots).
    pub args: Vec<u64>,
}

impl ThreadArgs {
    /// Append one argument word.
    pub fn arg(self, a: u64) -> (r: Self)
        requires
            self.n < 8,
            self.args@.len() == 8,
        ensures
            r.n == self.n + 1,
            r.args@ == self.args@.update(self.n as int, a),
    {
        let mut args = self.args;
        let n = self.n;
        args.set(n, a);
        ThreadArgs { n: n + 1, args }
    }

    /// Fabricate the thread: build its stack handle and saved context, and
    /// preload the collected arguments into the trap frame's argument
    /// registers.
    pub fn create(self, entry: u64, stack_bottom: u64, satp: u64, trapret: u64, sstatus_in: u64)
        -> (r: Box<Thread>)
        requires
            self.args@.len() == 8,
            stack_bottom + KERNEL_STACK_SIZE <= u64::MAX,
            stack_bottom + KERNEL_STACK_SIZE >= CONTEXT_CONTENT_BYTES,
        ensures
            fabricated_with_args(
                r.context.content,
                entry,
                (stack_bottom + KERNEL_STACK_SIZE) as u64,
                satp,
                trapret,
                sstatus_in,
                self.args@,
            ),
            r.kstack.bottom == stack_bottom,
    {
        let ghost args_snapshot = self.args@;
        let kstack = KStack::new(stack_bottom);
        let mut context = Context::new_kthread(entry, kstack.top(), satp, trapret, sstatus_in);
        let ghost c0 = context.content;
        let ghost sp = (stack_bottom + KERNEL_STACK_SIZE) as u64;
        let mut i: usize = 0;
        while i < 8
            invariant
                0 <= i <= 8,
                self.args@.len() == 8,
                args_snapshot == self.args@,
                context.content.wf(),
                c0.wf(),
                fabricated(c0, entry, sp, satp, trapret, sstatus_in),
                context.addr == stack_bottom + KERNEL_STACK_SIZE - CONTEXT_CONTENT_BYTES,
                forall|k: int| 0 <= k < i ==> context.content.tf.x@[10 + k] == args_snapshot[k],
                forall|k: int|
                    0 <= k < 32 && !(10 <= k < 10 + i) ==> context.content.tf.x@[k] == c0.tf.x@[k],
                context.content.tf.sstatus == c0.tf.sstatus,
                context.content.tf.sepc == c0.tf.sepc,
                context.content.tf.stval == c0.tf.stval,
                context.content.tf.scause == c0.tf.scause,
                context.content.ra == c0.ra,
                context.content.satp == c0.satp,
                context.content.s == c0.s,
            decreases 8 - i,
        {
            let v = self.args[i];
            context.content.tf.x.set(10 + i, v);
            i += 1;
        }
        proof {
            assert(fabricated_with_args(
                context.content,
                entry,
                sp,
                satp,
                trapret,
                sstatus_in,
                args_snapshot,
            )) by {
                assert(context.content.tf.x@[2] == c0.tf.x@[2]);
                assert forall|j: int|
                    0 <= j < 32 && j != 2 && !(10 <= j < 18) implies #[trigger] context.content.tf.x@[j]
                    == 0 by {
                    assert(context.content.tf.x@[j] == c0.tf.x@[j]);
                    assert(c0.tf.x@[j] == Seq::new(8, |i2: int| 0u64)[j - 10] || c0.tf.x@[j] == 0);
                }
            }
        }
        Box::new(Thread { context, kstack })
    }
}

} // verus!

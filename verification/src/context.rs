//! Thread context fabrication: the saved-register blob that lets a
//! never-yet-run thread be resumed by an ordinary context switch. The first
//! switch into such a thread lands in the trap-return trampoline, which
//! consumes the fabricated trap frame and begins execution at the chosen
//! entry address — as though returning from a trap that never happened.
use vstd::prelude::*;

use crate::bits::{bit_at, lemma_set_bit_effect, set_bit, spec_set_bit};

verus! {

/// The sstatus bit recording the previous privilege level (supervisor).
pub const SSTATUS_SPP_BIT: u64 = 8;

/// The sstatus bit recording the previous interrupt-enable state.
pub const SSTATUS_SPIE_BIT: u64 = 5;

/// The sstatus bit enabling supervisor interrupts now.
pub const SSTATUS_SIE_BIT: u64 = 2;

/// Bytes the saved context occupies on a kernel stack: return address,
/// page-table root, twelve callee-saved registers, and a 36-word trap frame,
/// eight bytes each.
pub const CONTEXT_CONTENT_BYTES: u64 = 400;

/// The full register and control-state snapshot captured on any trap.
pub struct TrapFrame {
    /// The 32 general registers; index 2 is the stack pointer, 10..18 the
    /// argument registers.
    pub x: Vec<u64>,
    /// Supervisor status register.
    pub sstatus: u64,
    /// Supervisor exception program counter.
    pub sepc: u64,
    /// Supervisor trap value.
    pub stval: u64,
    /// Supervisor cause register.
    pub scause: u64,
}

impl TrapFrame {
    /// A trap frame always carries all 32 general registers.
    pub open spec fn wf(self) -> bool {
        self.x@.len() == 32
    }

    /// An all-zero snapshot.
    pub fn zeroed() -> (r: Self)
        ensures
            r.wf(),
            forall|i: int| 0 <= i < 32 ==> r.x@[i] == 0,
            r.sstatus == 0,
            r.sepc == 0,
            r.stval == 0,
            r.scause == 0,
    {
        TrapFrame { x: vec![0u64; 32], sstatus: 0, sepc: 0, stval: 0, scause: 0 }
    }
}

/// The registers saved across a context switch: return address, page-table
/// root, callee-saved registers, and the thread's trap frame.
pub struct ContextContent {
    /// Return address the switch returns through.
    pub ra: u64,
    /// Saved page-table root pointer.
    pub satp: u64,
    /// The twelve callee-saved registers.
    pub s: Vec<u64>,
    /// The thread's trap frame.
    pub tf: TrapFrame,
}

/// What a fabricated context with preloaded argument words promises:
/// resuming it through the trap-return trampoline begins execution at
/// `entry` with stack pointer `sp`, in supervisor mode, with interrupts
/// enabled on entry and disabled during the return itself; the argument
/// registers hold `args`, and every other register and the trap metadata
/// are zero.
pub open spec fn fabricated_with_args(c: ContextContent, entry: u64, sp: u64, satp: u64,
    trapret: u64, sstatus_in: u64, args: Seq<u64>) -> bool {
    &&& c.wf()
    &&& args.len() == 8
    &&& c.ra == trapret
    &&& c.satp == satp
    &&& forall|i: int| 0 <= i < 12 ==> c.s@[i] == 0
    &&& c.tf.sepc == entry
    &&& c.tf.x@[2] == sp
    &&& forall|i: int| 0 <= i < 8 ==> c.tf.x@[10 + i] == args[i]
    &&& forall|j: int|
        0 <= j < 32 && j != 2 && !(10 <= j < 18) ==> #[trigger] c.tf.x@[j] == 0
    &&& c.tf.stval == 0
    &&& c.tf.scause == 0
    &&& bit_at(c.tf.sstatus, SSTATUS_SPP_BIT)
    &&& bit_at(c.tf.sstatus, SSTATUS_SPIE_BIT)
    &&& !bit_at(c.tf.sstatus, SSTATUS_SIE_BIT)
    &&& forall|j: u64|
        j < 64 && j != SSTATUS_SPP_BIT && j != SSTATUS_SPIE_BIT && j != SSTATUS_SIE_BIT
            ==> #[trigger] bit_at(c.tf.sstatus, j) == bit_at(sstatus_in, j)
}

/// A fabricated context with no argument words: every general register but
/// the stack slot is zero.
pub open spec fn fabricated(c: ContextContent, entry: u64, sp: u64, satp: u64, trapret: u64,
    sstatus_in: u64) -> bool {
    fabricated_with_args(c, entry, sp, satp, trapret, sstatus_in, Seq::new(8, |i: int| 0u64))
}

impl ContextContent {
    /// A context always carries twelve callee-saved registers and a full
    /// trap frame.
    pub open spec fn wf(self) -> bool {
        self.s@.len() == 12 && self.tf.wf()
    }

    /// Fabricate the initial saved context of a kernel thread: return into
    /// the trap-return trampoline at `trapret`, with a trap frame whose
    /// program counter is `entry`, whose stack pointer is `sp`, and whose
    /// status marks supervisor mode with previous-interrupts enabled and
    /// interrupts disabled during the return; `sstatus_in` is the current
    /// hardware status the remaining bits are taken from.
    pub fn new_kthread(entry: u64, sp: u64, satp: u64, trapret: u64, sstatus_in: u64) -> (r: Self)
        ensures
            fabricated(r, entry, sp, satp, trapret, sstatus_in),
    {
        let mut sstatus = sstatus_in;
        sstatus = set_bit(sstatus, SSTATUS_SPP_BIT, true);
        sstatus = set_bit(sstatus, SSTATUS_SPIE_BIT, true);
        sstatus = set_bit(sstatus, SSTATUS_SIE_BIT, false);
        let mut tf = TrapFrame::zeroed();
        tf.sstatus = sstatus;
        tf.x.set(2, sp);
        tf.sepc = entry;
        let r = ContextContent { ra: trapret, satp, s: vec![0u64; 12], tf };
        proof {
            let s1 = spec_set_bit(sstatus_in, SSTATUS_SPP_BIT, true);
            let s2 = spec_set_bit(s1, SSTATUS_SPIE_BIT, true);
            let s3 = spec_set_bit(s2, SSTATUS_SIE_BIT, false);
            assert forall|j: u64| j < 64 implies #[trigger] bit_at(s3, j) == (if j
                == SSTATUS_SIE_BIT {
                false
            } else if j == SSTATUS_SPIE_BIT || j == SSTATUS_SPP_BIT {
                true
            } else {
                bit_at(sstatus_in, j)
            }) by {
                lemma_set_bit_effect(sstatus_in, SSTATUS_SPP_BIT, true, j);
                lemma_set_bit_effect(s1, SSTATUS_SPIE_BIT, true, j);
                lemma_set_bit_effect(s2, SSTATUS_SIE_BIT, false, j);
            }
        }
        r
    }
}

/// A handle to a saved context: the stack address where the content blob
/// lives, together with the blob itself (which the hardware reads from that
/// address).
pub struct Context {
    /// Stack address of the saved content.
    pub addr: u64,
    /// The saved content at that address.
    pub content: ContextContent,
}

impl Context {
    /// Fabricate a new kernel-thread context on top of the stack at `sp`:
    /// the content is pushed below the stack top and the handle records
    /// where.
    pub fn new_kthread(entry: u64, sp: u64, satp: u64, trapret: u64, sstatus_in: u64) -> (r: Self)
        requires
            sp >= CONTEXT_CONTENT_BYTES,
        ensures
            r.addr == sp - CONTEXT_CONTENT_BYTES,
            fabricated(r.content, entry, sp, satp, trapret, sstatus_in),
    {
        let content = ContextContent::new_kthread(entry, sp, satp, trapret, sstatus_in);
        Context { addr: sp - CONTEXT_CONTENT_BYTES, content }
    }
}

/// A fabricated context's first resumption lands exactly where it was aimed:
/// at the entry address, on the given stack, in supervisor mode, with
/// supervisor interrupts to be re-enabled by the trap return — without the
/// thread ever having executed a trap.
pub proof fn lemma_context_fabrication(c: ContextContent, entry: u64, sp: u64, satp: u64,
    trapret: u64, sstatus_in: u64)
    requires
        fabricated(c, entry, sp, satp, trapret, sstatus_in),
    ensures
        c.ra == trapret,
        c.tf.sepc == entry,
        c.tf.x@[2] == sp,
        bit_at(c.tf.sstatus, SSTATUS_SPP_BIT),
        bit_at(c.tf.sstatus, SSTATUS_SPIE_BIT),
        !bit_at(c.tf.sstatus, SSTATUS_SIE_BIT),
        forall|j: int| 0 <= j < 32 && j != 2 ==> #[trigger] c.tf.x@[j] == 0,
        c.tf.stval == 0,
        c.tf.scause == 0,
{
    assert forall|j: int| 0 <= j < 32 && j != 2 implies #[trigger] c.tf.x@[j] == 0 by {
        if 10 <= j < 18 {
            assert(c.tf.x@[j] == Seq::new(8, |i: int| 0u64)[j - 10]);
        }
    }
}

} // verus!

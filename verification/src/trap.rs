//! Trap classification and handling decisions. The raw cause register value
//! is decoded through the target crate's scause accessors; everything the
//! kernel then decides — advancing past a breakpoint, counting a timer tick
//! and asking for preemption, declaring a fault fatal — is verified logic
//! over the saved trap frame.
use vstd::prelude::*;

use crate::bits::{bit_at, bits_of};
use crate::context::TrapFrame;

verus! {

/// Supervisor-timer interrupt cause code.
pub const CAUSE_SUPERVISOR_TIMER: u64 = 5;

/// Breakpoint exception cause code.
pub const CAUSE_BREAKPOINT: u64 = 3;

/// Instruction-page-fault exception cause code.
pub const CAUSE_INSTRUCTION_PAGE_FAULT: u64 = 12;

/// Load-page-fault exception cause code.
pub const CAUSE_LOAD_PAGE_FAULT: u64 = 13;

/// Store-page-fault exception cause code.
pub const CAUSE_STORE_PAGE_FAULT: u64 = 15;

/// The tick counter wraps at this modulus; it is used only for diagnostic
/// reporting.
pub const TICK_MODULUS: u64 = 1000;

/// A raw trap cause: the interrupt/exception discriminator bit and the
/// cause code below it.
#[derive(Debug, Copy, Clone, PartialEq, Eq, Structural)]
pub enum RawCause {
    /// An interrupt with its cause code.
    Interrupt(u64),
    /// An exception with its cause code.
    Exception(u64),
}

/// What the raw cause bits mean: the top bit selects interrupt against
/// exception, the remaining bits are the cause code.
pub open spec fn classify_spec(bits: u64) -> RawCause {
    if bit_at(bits, 63) {
        RawCause::Interrupt(bits_of(bits, 0, 63))
    } else {
        RawCause::Exception(bits_of(bits, 0, 63))
    }
}

/// Relies on riscv's `Scause::from_bits`, `Scause::is_interrupt` and
/// `Scause::cause`: on a 64-bit target, bit 63 of the cause register
/// distinguishes interrupts from exceptions and bits 0..63 carry the cause
/// code.
#[verifier::external_body]
fn scause_classify(bits: u64) -> (r: RawCause)
    ensures
        r == classify_spec(bits),
{
    let s = riscv::register::scause::Scause::from_bits(bits as usize);
    match s.cause() {
        riscv::interrupt::Trap::Interrupt(code) => RawCause::Interrupt(code as u64),
        riscv::interrupt::Trap::Exception(code) => RawCause::Exception(code as u64),
    }
}

/// What the glue around the trap handler must do next.
#[derive(Debug, Copy, Clone, PartialEq, Eq, Structural)]
pub enum TrapOutcome {
    /// Return from the trap; the frame has been adjusted.
    Handled,
    /// A timer tick: reprogram the timer deadline and drive the scheduler's
    /// tick before returning.
    Timer,
    /// A page fault or unknown cause: the kernel has no recovery policy and
    /// must halt.
    Fatal,
}

/// The decision a trap cause leads to, per the dispatch rules: breakpoints
/// are stepped over, supervisor-timer interrupts drive preemption, page
/// faults and everything else are fatal.
pub open spec fn outcome_spec(bits: u64) -> TrapOutcome {
    match classify_spec(bits) {
        RawCause::Interrupt(code) => if code == CAUSE_SUPERVISOR_TIMER {
            TrapOutcome::Timer
        } else {
            TrapOutcome::Fatal
        },
        RawCause::Exception(code) => if code == CAUSE_BREAKPOINT {
            TrapOutcome::Handled
        } else {
            TrapOutcome::Fatal
        },
    }
}

/// Handle one trap: classify the saved cause, adjust the frame for a
/// breakpoint (the saved program counter advances past the two-byte
/// instruction), count a timer tick with wraparound, and report what the
/// glue must do next.
pub fn on_trap(tf: &mut TrapFrame, ticks: &mut u64) -> (r: TrapOutcome)
    requires
        old(tf).wf(),
        old(tf).sepc + 2 <= u64::MAX,
        *old(ticks) < TICK_MODULUS,
    ensures
        final(tf).wf(),
        r == outcome_spec(old(tf).scause),
        r == TrapOutcome::Handled ==> *final(tf) == (TrapFrame {
            sepc: (old(tf).sepc + 2) as u64,
            ..*old(tf)
        }) && *final(ticks) == *old(ticks),
        r == TrapOutcome::Timer ==> *final(tf) == *old(tf) && *final(ticks) == (if *old(ticks) + 1
            == TICK_MODULUS {
            0
        } else {
            *old(ticks) + 1
        }),
        r == TrapOutcome::Fatal ==> *final(tf) == *old(tf) && *final(ticks) == *old(ticks),
        *final(ticks) < TICK_MODULUS,
{
    let cause = scause_classify(tf.scause);
    match cause {
        RawCause::Interrupt(code) => {
            if code == CAUSE_SUPERVISOR_TIMER {
                let next = *ticks + 1;
                if next == TICK_MODULUS {
                    *ticks = 0;
                } else {
                    *ticks = next;
                }
                TrapOutcome::Timer
            } else {
                TrapOutcome::Fatal
            }
        },
        RawCause::Exception(code) => {
            if code == CAUSE_BREAKPOINT {
                tf.sepc = tf.sepc + 2;
                TrapOutcome::Handled
            } else {
                TrapOutcome::Fatal
            }
        },
    }
}

/// The absolute deadline for the next timer interrupt: the current hardware
/// time plus the timer period.
pub fn next_deadline(now: u64, delta: u64) -> (r: u64)
    requires
        now + delta <= u64::MAX,
    ensures
        r == now + delta,
{
    now + delta
}

} // verus!

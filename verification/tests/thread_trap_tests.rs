//! Context fabrication, thread argument preloading, the processor's
//! dispatch decisions, and trap classification and handling.
use rvkernel::config::KERNEL_STACK_SIZE;
use rvkernel::context::{Context, ContextContent, TrapFrame, CONTEXT_CONTENT_BYTES};
use rvkernel::proc::Processor;
use rvkernel::sched::{RRScheduler, ThreadPool};
use rvkernel::thread::{KStack, Thread};
use rvkernel::trap::{next_deadline, on_trap, TrapOutcome};

#[test]
fn fabricated_context_targets_entry_stack_and_status() {
    let entry = 0x8020_4000u64;
    let sp = 0x8090_0000u64;
    let satp = (8u64 << 60) | 0x80234;
    let trapret = 0x8020_0100u64;
    let sstatus_in = 0x8000_0000_0000_0000u64;
    let c = ContextContent::new_kthread(entry, sp, satp, trapret, sstatus_in);
    assert_eq!(c.ra, trapret);
    assert_eq!(c.satp, satp);
    assert_eq!(c.tf.sepc, entry);
    assert_eq!(c.tf.x[2], sp);
    // previous privilege: supervisor; previous interrupts: enabled;
    // interrupts during the return: disabled
    assert_eq!((c.tf.sstatus >> 8) & 1, 1);
    assert_eq!((c.tf.sstatus >> 5) & 1, 1);
    assert_eq!((c.tf.sstatus >> 2) & 1, 0);
    // untouched bits come from the hardware status word
    assert_eq!(c.tf.sstatus >> 63, 1);
    assert_eq!(c.s, vec![0u64; 12]);
}

#[test]
fn context_handle_points_below_stack_top() {
    let sp = 0x10_0000u64;
    let ctx = Context::new_kthread(0x1000, sp, 0, 0x2000, 0);
    assert_eq!(ctx.addr, sp - CONTEXT_CONTENT_BYTES);
}

#[test]
fn kstack_top_is_bottom_plus_size() {
    let ks = KStack::new(0x4000_0000);
    assert_eq!(ks.top(), 0x4000_0000 + KERNEL_STACK_SIZE);
}

#[test]
fn thread_builder_preloads_arguments() {
    let t = Thread::with_args()
        .arg(0xAA)
        .arg(0xBB)
        .create(0x1000, 0x4000_0000, 7, 0x2000, 0);
    assert_eq!(t.context.content.tf.x[10], 0xAA);
    assert_eq!(t.context.content.tf.x[11], 0xBB);
    assert_eq!(t.context.content.tf.x[12], 0);
    assert_eq!(t.context.content.satp, 7);
    assert_eq!(t.kstack.bottom, 0x4000_0000);
}

#[test]
fn set_args_fills_argument_registers() {
    let mut t = Thread::new(0x1000, 0x4000_0000, 0, 0x2000, 0);
    t.set_args(&vec![1, 2, 3]);
    assert_eq!(t.context.content.tf.x[10], 1);
    assert_eq!(t.context.content.tf.x[11], 2);
    assert_eq!(t.context.content.tf.x[12], 3);
    assert_eq!(t.context.content.tf.x[13], 0);
    // the fabricated stack pointer is untouched
    assert_eq!(t.context.content.tf.x[2], 0x4000_0000 + KERNEL_STACK_SIZE);
}

#[test]
fn breakpoint_steps_over_instruction() {
    let mut tf = TrapFrame::zeroed();
    tf.scause = 3;
    tf.sepc = 0x8020_0200;
    let mut ticks = 0u64;
    let r = on_trap(&mut tf, &mut ticks);
    assert_eq!(r, TrapOutcome::Handled);
    assert_eq!(tf.sepc, 0x8020_0202);
    assert_eq!(ticks, 0);
}

#[test]
fn timer_interrupt_counts_and_wraps() {
    let mut tf = TrapFrame::zeroed();
    tf.scause = (1u64 << 63) | 5;
    let mut ticks = 0u64;
    assert_eq!(on_trap(&mut tf, &mut ticks), TrapOutcome::Timer);
    assert_eq!(ticks, 1);
    ticks = 999;
    assert_eq!(on_trap(&mut tf, &mut ticks), TrapOutcome::Timer);
    assert_eq!(ticks, 0);
}

#[test]
fn page_faults_and_unknown_causes_are_fatal() {
    let mut ticks = 0u64;
    for cause in [12u64, 13, 15, 2] {
        let mut tf = TrapFrame::zeroed();
        tf.scause = cause;
        assert_eq!(on_trap(&mut tf, &mut ticks), TrapOutcome::Fatal);
    }
    // an interrupt that is not the supervisor timer is also unhandled
    let mut tf = TrapFrame::zeroed();
    tf.scause = (1u64 << 63) | 1;
    assert_eq!(on_trap(&mut tf, &mut ticks), TrapOutcome::Fatal);
}

#[test]
fn deadline_is_now_plus_period() {
    assert_eq!(next_deadline(1000, 100_000), 101_000);
}

#[test]
fn processor_dispatch_cycle() {
    let mut cpu = Processor::new();
    let pool = Box::new(ThreadPool::new(4, RRScheduler::new()));
    let idle = Thread::boot_thread();
    cpu.init(pool, idle);
    // nothing runnable: no pick, no preemption
    assert_eq!(cpu.pick_current(), None);
    assert!(!cpu.tick());

    cpu.push(Thread::boot_thread());
    let tid = cpu.pick_current().expect("one task is runnable");
    assert_eq!(tid, 0);
    // a full slice expires under the timer
    let mut fired = false;
    for _ in 0..10 {
        if cpu.tick() {
            fired = true;
            break;
        }
    }
    assert!(fired);
    cpu.reclaim_current();
    // the same task is picked again, round-robin
    assert_eq!(cpu.pick_current(), Some(0));
    cpu.exit(7);
    assert_eq!(cpu.pick_current(), None);
}

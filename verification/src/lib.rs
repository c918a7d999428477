//! Verified core of a small RISC-V (Sv39) kernel: a segment-tree physical
//! frame allocator, three-level page-table construction over an explicit
//! model of the kernel's linearly-mapped physical memory, virtual
//! address-space assembly from disjoint areas, thread-context fabrication,
//! and a round-robin scheduler with a fixed-capacity thread pool.
//!
//! Hardware acts (CSR writes, SBI calls, the context-switch instruction
//! sequence, translation-cache flushes) are outside this library; every
//! function here is pure logic over the kernel's own state and is verified.
pub mod addr;
pub mod bits;
pub mod config;
pub mod context;
pub mod frame;
pub mod frame_alloc;
pub mod memset;
pub mod page;
pub mod proc;
pub mod sched;
pub mod sv39;
pub mod thread;
pub mod trap;

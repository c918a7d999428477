//! Compile-time layout of the kernel: physical-memory window, kernel image
//! placement, page geometry, and scheduling granularity. Addresses and sizes
//! are 64-bit values, matching the target's register width.
use vstd::prelude::*;

verus! {

/// Total physical memory the kernel manages (128 MiB).
pub const MAX_PHYSICAL_MEMORY: u64 = 1024 * 1024 * 128;

/// First physical address of main memory on this platform.
pub const PHYSICAL_MEMORY_BEGIN: u64 = 0x8000_0000;

/// One past the last managed physical address.
pub const PHYSICAL_MEMORY_END: u64 = PHYSICAL_MEMORY_BEGIN + MAX_PHYSICAL_MEMORY;

/// Physical address where the kernel image is loaded.
pub const KERNEL_BEGIN_PADDR: u64 = 0x8020_0000;

/// Virtual address the kernel image is linked at.
pub const KERNEL_BEGIN_VADDR: u64 = 0xffff_ffff_c020_0000;

/// Size of the kernel heap.
pub const KERNEL_HEAP_SIZE: u64 = 0x80_0000;

/// Size of each thread's kernel stack.
pub const KERNEL_STACK_SIZE: u64 = 0x8_0000;

/// Fixed linear offset between a physical address and its kernel-space
/// virtual alias: virtual = physical + offset.
pub const PHYSICAL_MEMORY_OFFSET: u64 = KERNEL_BEGIN_VADDR - KERNEL_BEGIN_PADDR;

/// log2 of the page size.
pub const PAGE_BITS: u64 = 12;

/// Size of one page (4 KiB).
pub const PAGE_SIZE: u64 = 4096;

/// Number of entries in one page-table level (PAGE_SIZE / 8-byte entries).
pub const PAGE_ENTRIES: usize = 512;

/// Number of page frames in the managed physical memory.
pub const MAX_PHYSICAL_PAGES: u64 = MAX_PHYSICAL_MEMORY / PAGE_SIZE;

/// Timer-interrupt period, in hardware ticks (roughly 1% of the clock).
pub const TIMEBASE: u64 = 100_000;

/// Timer ticks in one scheduling time slice.
pub const TICKS_PER_TIME_SLICE: usize = 10;

} // verus!

//! An owned unit of physical memory, one page wide. A frame exists between a
//! successful allocation and the matching deallocation; ownership is passed
//! explicitly by the holder.
use vstd::prelude::*;

use crate::addr::PhysAddr;
use crate::config::PAGE_SIZE;

verus! {

/// One page-sized unit of physical memory, identified by its start address.
#[derive(Debug, Copy, Clone, PartialEq, Eq, Structural)]
pub struct Frame(pub PhysAddr);

impl Frame {
    /// The frame whose physical page number is `ppn`.
    pub fn from_ppn(ppn: u64) -> (r: Self)
        requires
            ppn < 0x10_0000,
        ensures
            r.0.0 == ppn * PAGE_SIZE,
            r.number_spec() == ppn,
    {
        Frame(PhysAddr::new(ppn * PAGE_SIZE))
    }

    /// The frame containing the given physical address.
    pub fn from_addr(pa: PhysAddr) -> (r: Self)
        ensures
            r.0 == pa,
    {
        Frame(pa)
    }

    /// The physical page number of this frame.
    pub open spec fn number_spec(self) -> u64 {
        (self.0.0 / PAGE_SIZE) as u64
    }

    /// The physical page number of this frame.
    pub fn number(self) -> (r: u64)
        ensures
            r == self.number_spec(),
    {
        self.0.page_number()
    }

    /// The first physical address of this frame.
    pub fn start_address(self) -> (r: PhysAddr)
        ensures
            r.0 == (self.0.0 / PAGE_SIZE) * PAGE_SIZE,
    {
        self.0.page_aligned()
    }

    /// The raw address this frame was built from.
    pub fn as_u64(self) -> (r: u64)
        ensures
            r == self.0.0,
    {
        self.0.0
    }
}

/// The physical page-number range available to the frame allocator once the
/// kernel image is in place: from the first whole page above the image's end
/// to the end of managed physical memory.
pub fn kernel_frame_range(kernel_end_vaddr: u64) -> (r: (u64, u64))
    requires
        kernel_end_vaddr >= crate::config::KERNEL_BEGIN_VADDR,
        // the kernel image fits comfortably below the end of physical memory
        kernel_end_vaddr - crate::config::KERNEL_BEGIN_VADDR <= 0x200_0000,
    ensures
        r.0 == ((kernel_end_vaddr - crate::config::KERNEL_BEGIN_VADDR
            + crate::config::KERNEL_BEGIN_PADDR) as u64) / PAGE_SIZE + 1,
        r.1 == crate::config::PHYSICAL_MEMORY_END / PAGE_SIZE,
        r.0 <= r.1,
{
    let bppn = (kernel_end_vaddr - crate::config::KERNEL_BEGIN_VADDR
        + crate::config::KERNEL_BEGIN_PADDR) / PAGE_SIZE + 1;
    let eppn = crate::config::PHYSICAL_MEMORY_END / PAGE_SIZE;
    (bppn, eppn)
}

} // verus!

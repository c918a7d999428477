//! Assembly of one virtual address space from disjoint areas. Each area is
//! one contiguous virtual range with one mapping policy (linear offset, or a
//! fresh frame per page) and one permission set, installed into the owned
//! Sv39 table as soon as the area is pushed.
use vstd::prelude::*;

use crate::addr::{canonical, lemma_canonical_between, PhysAddr, VirtAddr};
use crate::bits::bit_at;
use crate::config::PAGE_SIZE;
use crate::frame::Frame;
use crate::frame_alloc::SegmentTreeAllocator;
use crate::page::{
    Page, PageRange, PageTableFlags, FLAG_ACCESSED, FLAG_DIRTY, FLAG_EXECUTABLE, FLAG_MASK,
    FLAG_READABLE, FLAG_VALID, FLAG_WRITABLE,
};
use crate::sv39::{idx1, idx2, idx3, MapError, Sv39PageTable};

verus! {

/// The canonical virtual address whose page-table indices are the given
/// triple: the three indices above a zero page offset, sign-extended from
/// the top bit of the level-3 index.
pub open spec fn addr_of(a3: int, a2: int, a1: int) -> u64 {
    let base = (((a3 as u64) << 30) | ((a2 as u64) << 21) | ((a1 as u64) << 12)) as u64;
    if a3 >= 256 {
        (base | 0xFFFF_FF80_0000_0000) as u64
    } else {
        base
    }
}

/// For a canonical page-aligned address, rebuilding the address from its
/// three page-table indices gives the address back.
pub proof fn lemma_addr_of_roundtrip(p: u64)
    requires
        canonical(p),
        p % PAGE_SIZE == 0,
    ensures
        addr_of(idx3(p), idx2(p), idx1(p)) == p,
        0 <= idx3(p) < 512,
        0 <= idx2(p) < 512,
        0 <= idx1(p) < 512,
{
    crate::bits::lemma_bits_of_shapes(p);
    assert(bit_at(p, 38) == ((p >> 38) & 1 == 1));
    assert(((if (p >> 38) & 1 == 1 {
        (p >> 39) & 0x1FF_FFFF == 0x1FF_FFFF
    } else {
        (p >> 39) & 0x1FF_FFFF == 0
    }) && p % 4096 == 0) ==> {
        let base = ((((p >> 30) & 0x1FF) << 30) | (((p >> 21) & 0x1FF) << 21) | (((p >> 12)
            & 0x1FF) << 12)) as u64;
        &&& (p >> 30) & 0x1FF < 512
        &&& (p >> 21) & 0x1FF < 512
        &&& (p >> 12) & 0x1FF < 512
        &&& ((p >> 30) & 0x1FF >= 256 ==> (base | 0xFFFF_FF80_0000_0000) == p)
        &&& ((p >> 30) & 0x1FF < 256 ==> base == p)
    }) by (bit_vector);
}

/// Permission attributes of one memory area, with builder-style setters.
#[derive(Debug, Copy, Clone, PartialEq, Eq, Structural)]
pub struct MemAttrib {
    pub readable: bool,
    pub writable: bool,
    pub executable: bool,
    pub user: bool,
}

impl MemAttrib {
    /// The flag word this attribute rewrites a leaf's permissions to, given
    /// the leaf's current flags: VALID is forced on, the permission bits
    /// follow the attribute, and all other bits are preserved.
    pub open spec fn apply_spec(self, bits: u64) -> u64 {
        let b1 = ((bits & !(FLAG_READABLE | FLAG_WRITABLE | FLAG_EXECUTABLE)) | FLAG_VALID) as u64;
        let b2 = if self.readable {
            (b1 | FLAG_READABLE) as u64
        } else {
            b1
        };
        let b3 = if self.writable {
            (b2 | FLAG_WRITABLE) as u64
        } else {
            b2
        };
        if self.executable {
            (b3 | FLAG_EXECUTABLE) as u64
        } else {
            b3
        }
    }

    /// No permissions.
    pub fn new() -> (r: Self)
        ensures
            r == (MemAttrib { readable: false, writable: false, executable: false, user: false }),
    {
        MemAttrib { readable: false, writable: false, executable: false, user: false }
    }

    /// Set or clear the readable permission.
    pub fn readable(self, r: bool) -> (res: Self)
        ensures
            res == (MemAttrib { readable: r, ..self }),
    {
        MemAttrib { readable: r, ..self }
    }

    /// Set or clear the writable permission.
    pub fn writable(self, w: bool) -> (res: Self)
        ensures
            res == (MemAttrib { writable: w, ..self }),
    {
        MemAttrib { writable: w, ..self }
    }

    /// Set or clear the executable permission.
    pub fn executable(self, x: bool) -> (res: Self)
        ensures
            res == (MemAttrib { executable: x, ..self }),
    {
        MemAttrib { executable: x, ..self }
    }

    /// Set or clear the user-accessible attribute.
    pub fn user(self, u: bool) -> (res: Self)
        ensures
            res == (MemAttrib { user: u, ..self }),
    {
        MemAttrib { user: u, ..self }
    }

    /// Rewrite a leaf's flag word: force VALID, impose this attribute's
    /// permission bits, keep everything else.
    pub fn apply(self, flags: PageTableFlags) -> (r: PageTableFlags)
        requires
            flags.bits <= FLAG_MASK,
        ensures
            r.bits == self.apply_spec(flags.bits),
            r.bits <= FLAG_MASK,
    {
        let mut bits = (flags.bits & !(FLAG_READABLE | FLAG_WRITABLE | FLAG_EXECUTABLE))
            | FLAG_VALID;
        if self.readable {
            bits = bits | FLAG_READABLE;
        }
        if self.writable {
            bits = bits | FLAG_WRITABLE;
        }
        if self.executable {
            bits = bits | FLAG_EXECUTABLE;
        }
        proof {
            let b = flags.bits;
            assert(b <= 0x3FF ==> ((b & !(2u64 | 4 | 8)) | 1) | 2 <= 0x3FF && ((b & !(2u64 | 4 | 8))
                | 1) | 4 <= 0x3FF && ((b & !(2u64 | 4 | 8)) | 1) | 8 <= 0x3FF && ((b & !(2u64 | 4
                | 8)) | 1) <= 0x3FF && (((b & !(2u64 | 4 | 8)) | 1) | 2) | 4 <= 0x3FF && ((((b
                & !(2u64 | 4 | 8)) | 1) | 2) | 4) | 8 <= 0x3FF && (((b & !(2u64 | 4 | 8)) | 1) | 2)
                | 8 <= 0x3FF && (((b & !(2u64 | 4 | 8)) | 1) | 4) | 8 <= 0x3FF) by (bit_vector);
        }
        PageTableFlags { bits }
    }
}

/// Maps virtual page V to physical page (V − offset): used for ranges that
/// are already laid out in physical memory at a fixed distance.
#[derive(Debug, Copy, Clone, PartialEq, Eq, Structural)]
pub struct Linear {
    pub offset: u64,
}

impl Linear {
    /// A linear policy with the given virtual-to-physical offset.
    pub fn new(offset: u64) -> (r: Self)
        ensures
            r.offset == offset,
    {
        Linear { offset }
    }
}

/// Backs each virtual page with a freshly allocated physical frame.
#[derive(Debug, Copy, Clone, PartialEq, Eq, Structural)]
pub struct ByFrame;

impl ByFrame {
    /// A fresh-frame-per-page policy.
    pub fn new() -> (r: Self) {
        ByFrame
    }
}

/// One of the two mapping policies an area can carry.
#[derive(Debug, Copy, Clone, PartialEq, Eq, Structural)]
pub enum MemHandler {
    /// Linear-offset mapping.
    Linear(Linear),
    /// Fresh-frame-per-page mapping.
    ByFrame(ByFrame),
}

/// One contiguous virtual range `[begin, end)` with one mapping policy and
/// one permission set.
pub struct MemArea {
    pub begin: VirtAddr,
    pub end: VirtAddr,
    pub handler: MemHandler,
    pub attrib: MemAttrib,
}

/// A well-formed area: page-aligned canonical half-open bounds on one side
/// of the address hole.
pub open spec fn area_wf(a: MemArea) -> bool {
    &&& a.begin.0 <= a.end.0
    &&& a.begin.0 % PAGE_SIZE == 0
    &&& a.end.0 % PAGE_SIZE == 0
    &&& canonical(a.begin.0)
    &&& canonical(a.end.0)
    &&& bit_at(a.begin.0, 38) == bit_at(a.end.0, 38)
    &&& (a.handler matches MemHandler::Linear(h) ==> a.begin.0 >= h.offset && a.end.0 - h.offset
        <= 0x1_0000_0000 && h.offset % PAGE_SIZE == 0)
}

/// Whether an area's range covers the given address.
pub open spec fn area_covers(a: MemArea, addr: u64) -> bool {
    a.begin.0 <= addr < a.end.0
}

/// Whether an area's page range intersects the half-open range `[b, e)`.
pub open spec fn area_overlaps(a: MemArea, b: u64, e: u64) -> bool {
    !(e / PAGE_SIZE <= a.begin.0 / PAGE_SIZE || a.end.0 / PAGE_SIZE <= b / PAGE_SIZE)
}

impl MemArea {
    /// An area from its parts.
    pub fn new(begin: VirtAddr, end: VirtAddr, handler: MemHandler, attrib: MemAttrib) -> (r:
        Self)
        ensures
            r.begin == begin,
            r.end == end,
            r.handler == handler,
            r.attrib == attrib,
    {
        MemArea { begin, end, handler, attrib }
    }

    /// Whether this area's pages intersect the half-open range `[begin,
    /// end)`.
    pub fn is_overlap(&self, begin: VirtAddr, end: VirtAddr) -> (r: bool)
        ensures
            r == area_overlaps(*self, begin.0, end.0),
    {
        !(end.page_number() <= self.begin.page_number() || self.end.page_number()
            <= begin.page_number())
    }
}

/// Frames one accepted push can consume: a data frame per page under the
/// fresh-frame policy, plus at most one level-1 table per 2 MiB region and
/// one level-2 table per 1 GiB region the range touches.
pub open spec fn push_capacity(b: u64, e: u64, h: MemHandler) -> int {
    if b >= e {
        0
    } else {
        let last = if e >= PAGE_SIZE {
            (e - PAGE_SIZE) as u64
        } else {
            0
        };
        (if h is ByFrame {
            e / PAGE_SIZE - b / PAGE_SIZE
        } else {
            0
        }) + (last / 0x20_0000 - b / 0x20_0000 + 1) + (last / 0x4000_0000 - b / 0x4000_0000 + 1)
    }
}

/// Frames the rest of a push's loop can still consume: the remaining data
/// frames, the 2 MiB and 1 GiB regions not yet entered, and one table for
/// the current region per level where the level is still missing.
spec fn remaining_need(tbl: Sv39PageTable, cur: u64, evpn: u64, last: u64, h: MemHandler) -> int {
    if cur >= evpn {
        0
    } else {
        let a = (cur * PAGE_SIZE) as u64;
        (if h is ByFrame {
            evpn - cur
        } else {
            0
        }) + (last / 0x20_0000 - a / 0x20_0000) + (if tbl.valid2(idx3(a), idx2(a)) {
            0int
        } else {
            1int
        }) + (last / 0x4000_0000 - a / 0x4000_0000) + (if tbl.valid3(idx3(a)) {
            0int
        } else {
            1int
        })
    }
}

/// Stepping one page forward moves each region prefix by at most one, and
/// only together with the finer one.
proof fn lemma_region_step(a: u64)
    requires
        a + 4096 <= u64::MAX,
    ensures
        a / 0x20_0000 <= ((a + 4096) as u64) / 0x20_0000 <= a / 0x20_0000 + 1,
        a / 0x4000_0000 <= ((a + 4096) as u64) / 0x4000_0000 <= a / 0x4000_0000 + 1,
        ((a + 4096) as u64) / 0x4000_0000 != a / 0x4000_0000 ==> ((a + 4096) as u64) / 0x20_0000
            != a / 0x20_0000,
{
    let b = (a + 4096) as u64;
    assert(a / 0x20_0000 <= b / 0x20_0000 <= a / 0x20_0000 + 1 && a / 0x4000_0000 <= b
        / 0x4000_0000 <= a / 0x4000_0000 + 1 && (b / 0x4000_0000 != a / 0x4000_0000 ==> b
        / 0x20_0000 != a / 0x20_0000)) by (bit_vector)
        requires
            b == a + 4096,
    ;
}

/// A 2 MiB region pins the two upper page-table indices; a 1 GiB region
/// pins the top one.
proof fn lemma_region_indices(a: u64, b: u64)
    ensures
        a / 0x20_0000 == b / 0x20_0000 ==> idx3(a) == idx3(b) && idx2(a) == idx2(b),
        a / 0x4000_0000 == b / 0x4000_0000 ==> idx3(a) == idx3(b),
{
    assert((a / 0x20_0000 == b / 0x20_0000 ==> ((a >> 30) & 0x1FF == (b >> 30) & 0x1FF && (a
        >> 21) & 0x1FF == (b >> 21) & 0x1FF)) && (a / 0x4000_0000 == b / 0x4000_0000 ==> (a >> 30)
        & 0x1FF == (b >> 30) & 0x1FF)) by (bit_vector);
    crate::bits::lemma_bits_of_shapes(a);
    crate::bits::lemma_bits_of_shapes(b);
}

/// The capacity bound is never negative.
proof fn lemma_capacity_nonneg(b: u64, e: u64, h: MemHandler)
    ensures
        push_capacity(b, e, h) >= 0,
{
    if b < e {
        let last = if e >= PAGE_SIZE {
            (e - PAGE_SIZE) as u64
        } else {
            0
        };
        assert(b / 4096 <= e / 4096 && b / 0x20_0000 <= last / 0x20_0000 + 1 && b / 0x4000_0000
            <= last / 0x4000_0000 + 1) by (bit_vector)
            requires
                b < e,
                last == (if e >= 4096 {
                    (e - 4096) as u64
                } else {
                    0
                }),
        ;
    }
}

/// Why a push into a memory set was refused.
#[derive(Debug, Copy, Clone, PartialEq, Eq, Structural)]
pub enum MemSetError {
    /// The range's begin lies above its end.
    InvalidRange,
    /// The range overlaps an area already in the set.
    Overlap,
}

/// The full set of areas composing one address space, with the page table
/// realizing them. No two areas overlap, and every live mapping in the
/// table belongs to some area.
pub struct MemSet {
    pub areas: Vec<MemArea>,
    pub tbl: Sv39PageTable,
}

impl MemSet {
    /// The leaf entry the table holds for the page at `vaddr`.
    pub open spec fn page_leaf(self, vaddr: u64) -> crate::page::PageTableEntry {
        self.tbl.leaf(idx3(vaddr), idx2(vaddr), idx1(vaddr))
    }

    /// Whether the page at `vaddr` is mapped.
    pub open spec fn page_mapped(self, vaddr: u64) -> bool {
        self.tbl.mapped(idx3(vaddr), idx2(vaddr), idx1(vaddr))
    }

    /// Whether some area of the set covers `addr`.
    pub open spec fn covered(self, addr: u64) -> bool {
        exists|i: int|
            0 <= i < self.areas@.len() && area_covers(#[trigger] self.areas@[i], addr)
    }

    /// The pages of `[begin, end)` are all mapped, with the flag word the
    /// attribute dictates, and - under a linear policy - to the physical
    /// page at the fixed offset below each virtual page.
    pub open spec fn range_installed(self, begin: u64, end: u64, attrib: MemAttrib,
        handler: MemHandler) -> bool {
        &&& forall|ad: u64|
            begin <= ad < end && ad % PAGE_SIZE == 0 ==> #[trigger] self.page_mapped(ad)
        &&& forall|ad: u64|
            begin <= ad < end && ad % PAGE_SIZE == 0 ==> (#[trigger] self.page_leaf(
                ad,
            )).spec_flags() == attrib.apply_spec(
                FLAG_VALID | FLAG_READABLE | FLAG_WRITABLE | FLAG_ACCESSED | FLAG_DIRTY,
            )
        &&& (handler matches MemHandler::Linear(h) ==> forall|ad: u64|
            begin <= ad < end && ad % PAGE_SIZE == 0 ==> (#[trigger] self.page_leaf(
                ad,
            )).spec_ppn() == ((ad - h.offset) as u64) / PAGE_SIZE)
    }

    /// Structural invariant: a well-formed table, well-formed pairwise
    /// disjoint areas, and no mapping outside the areas.
    pub open spec fn wf(self) -> bool {
        &&& self.tbl.wf()
        &&& forall|i: int| 0 <= i < self.areas@.len() ==> area_wf(#[trigger] self.areas@[i])
        &&& forall|i: int, j: int|
            0 <= i < self.areas@.len() && 0 <= j < self.areas@.len() && i != j ==> !area_overlaps(
                #[trigger] self.areas@[i],
                (#[trigger] self.areas@[j]).begin.0,
                self.areas@[j].end.0,
            )
        &&& forall|a3: int, a2: int, a1: int|
            #[trigger] self.tbl.mapped(a3, a2, a1) ==> self.covered(addr_of(a3, a2, a1))
    }

    /// An empty address space: no areas, a fresh table, nothing mapped.
    pub fn new(fa: &mut SegmentTreeAllocator) -> (r: Self)
        requires
            old(fa).wf(),
            old(fa).free_count() >= 1,
        ensures
            r.wf(),
            final(fa).wf(),
            final(fa).cap == old(fa).cap,
            final(fa).low == old(fa).low,
            final(fa).high == old(fa).high,
            final(fa).len == old(fa).len + 1,
            r.tbl.owns_tables(*final(fa)),
            r.areas@.len() == 0,
            forall|ad: u64| !(#[trigger] r.page_mapped(ad)),
    {
        let tbl = Sv39PageTable::new(fa);
        let r = MemSet { areas: Vec::new(), tbl };
        proof {
            assert(forall|a3: int, a2: int, a1: int| !(#[trigger] r.tbl.mapped(a3, a2, a1)));
        }
        r
    }

    /// Whether the half-open range `[begin, end)` intersects any area's
    /// pages.
    pub fn is_overlap(&self, begin: VirtAddr, end: VirtAddr) -> (r: bool)
        ensures
            r == exists|i: int|
                0 <= i < self.areas@.len() && area_overlaps(
                    #[trigger] self.areas@[i],
                    begin.0,
                    end.0,
                ),
    {
        let mut i: usize = 0;
        while i < self.areas.len()
            invariant
                0 <= i <= self.areas@.len(),
                forall|k: int|
                    0 <= k < i ==> !area_overlaps(#[trigger] self.areas@[k], begin.0, end.0),
            decreases self.areas@.len() - i,
        {
            if self.areas[i].is_overlap(begin, end) {
                return true;
            }
            i += 1;
        }
        false
    }

    /// Add one new area covering `[begin, end)` and immediately install its
    /// mapping. An inverted range, or one whose pages intersect an existing
    /// area, is refused before any mapping is installed.
    #[verifier::rlimit(100)]
    pub fn push(&mut self, begin: VirtAddr, end: VirtAddr, handler: MemHandler,
        attrib: MemAttrib, fa: &mut SegmentTreeAllocator) -> (r: Result<(), MemSetError>)
        requires
            old(self).wf(),
            old(fa).wf(),
            old(self).tbl.owns_tables(*old(fa)),
            old(fa).cap <= 0x10_0000,
            begin.0 % PAGE_SIZE == 0,
            end.0 % PAGE_SIZE == 0,
            canonical(begin.0),
            canonical(end.0),
            bit_at(begin.0, 38) == bit_at(end.0, 38),
            handler matches MemHandler::Linear(h) ==> begin.0 >= h.offset && end.0 - h.offset
                <= 0x1_0000_0000 && h.offset % PAGE_SIZE == 0,
            begin.0 <= end.0 && !(exists|i: int|
                0 <= i < old(self).areas@.len() && area_overlaps(
                    #[trigger] old(self).areas@[i],
                    begin.0,
                    end.0,
                )) ==> old(fa).free_count() >= push_capacity(begin.0, end.0, handler),
        ensures
            final(self).wf(),
            final(fa).wf(),
            final(self).tbl.owns_tables(*final(fa)),
            final(fa).cap == old(fa).cap,
            final(fa).low == old(fa).low,
            final(fa).high == old(fa).high,
            forall|q: int|
                0 <= q < old(fa).cap && old(fa).leaf(q) ==> #[trigger] final(fa).leaf(q),
            final(fa).free_count() >= old(fa).free_count() - push_capacity(
                begin.0,
                end.0,
                handler,
            ),
            r is Ok ==> begin.0 <= end.0,
            r is Ok ==> !(exists|i: int|
                0 <= i < old(self).areas@.len() && area_overlaps(
                    #[trigger] old(self).areas@[i],
                    begin.0,
                    end.0,
                )),
            r is Ok ==> final(self).areas@ == old(self).areas@.push(
                (MemArea { begin, end, handler, attrib }),
            ),
            r is Ok ==> final(self).range_installed(begin.0, end.0, attrib, handler),
            r is Ok ==> forall|a3: int, a2: int, a1: int|
                #[trigger] old(self).tbl.mapped(a3, a2, a1) ==> final(self).tbl.leaf(a3, a2, a1)
                    == old(self).tbl.leaf(a3, a2, a1),
            r == Err::<(), MemSetError>(MemSetError::InvalidRange) ==> begin.0 > end.0,
            r == Err::<(), MemSetError>(MemSetError::Overlap) ==> begin.0 <= end.0 && (exists|
                i: int|
                0 <= i < old(self).areas@.len() && area_overlaps(
                    #[trigger] old(self).areas@[i],
                    begin.0,
                    end.0,
                )),
            r is Err ==> final(self).areas@ == old(self).areas@ && final(self).tbl.tables@ == old(
                self,
            ).tbl.tables@ && final(fa).occupied@ == old(fa).occupied@ && final(fa).len == old(
                fa,
            ).len,
    {
        if begin.as_u64() > end.as_u64() {
            return Err(MemSetError::InvalidRange);
        }
        if self.is_overlap(begin, end) {
            return Err(MemSetError::Overlap);
        }
        let ghost bvpn = begin.0 / PAGE_SIZE;
        let ghost evpn = end.0 / PAGE_SIZE;
        let ghost last_addr: u64 = if end.0 >= PAGE_SIZE {
            (end.0 - PAGE_SIZE) as u64
        } else {
            0
        };
        let mut range = PageRange::of_aligned(begin, end);
        proof {
            lemma_capacity_nonneg(begin.0, end.0, handler);
            vstd::arithmetic::div_mod::lemma_fundamental_div_mod(begin.0 as int, 4096);
            vstd::arithmetic::div_mod::lemma_fundamental_div_mod(end.0 as int, 4096);
            if bvpn < evpn {
                assert(begin.0 < end.0) by (nonlinear_arith)
                    requires
                        bvpn < evpn,
                        begin.0 == bvpn * 4096,
                        end.0 == evpn * 4096,
                ;
                let a0 = (bvpn * PAGE_SIZE) as u64;
                assert(a0 == begin.0);
                assert(remaining_need(self.tbl, bvpn, evpn, last_addr, handler) <= push_capacity(
                    begin.0,
                    end.0,
                    handler,
                ));
            }
        }
        loop
            invariant
                range.wf(),
                range.end == evpn,
                bvpn <= range.begin <= range.end,
                bvpn == begin.0 / PAGE_SIZE,
                evpn == end.0 / PAGE_SIZE,
                begin.0 <= end.0,
                begin.0 % PAGE_SIZE == 0,
                end.0 % PAGE_SIZE == 0,
                canonical(begin.0),
                canonical(end.0),
                bit_at(begin.0, 38) == bit_at(end.0, 38),
                handler matches MemHandler::Linear(h) ==> begin.0 >= h.offset && end.0 - h.offset
                    <= 0x1_0000_0000 && h.offset % PAGE_SIZE == 0,
                self.tbl.wf(),
                fa.wf(),
                self.tbl.owns_tables(*fa),
                fa.cap <= 0x10_0000,
                fa.cap == old(fa).cap,
                fa.low == old(fa).low,
                fa.high == old(fa).high,
                self.areas@ == old(self).areas@,
                old(self).wf(),
                forall|i: int|
                    0 <= i < old(self).areas@.len() ==> !area_overlaps(
                        #[trigger] old(self).areas@[i],
                        begin.0,
                        end.0,
                    ),
                end.0 >= PAGE_SIZE ==> last_addr == end.0 - PAGE_SIZE,
                end.0 < PAGE_SIZE ==> last_addr == 0,
                fa.free_count() >= remaining_need(self.tbl, range.begin, evpn, last_addr, handler),
                old(fa).free_count() - fa.free_count() + remaining_need(
                    self.tbl,
                    range.begin,
                    evpn,
                    last_addr,
                    handler,
                ) <= push_capacity(begin.0, end.0, handler),
                forall|q: int|
                    0 <= q < old(fa).cap && old(fa).leaf(q) ==> #[trigger] fa.leaf(q),
                forall|a3: int, a2: int, a1: int|
                    #[trigger] self.tbl.mapped(a3, a2, a1) ==> old(self).covered(
                        addr_of(a3, a2, a1),
                    ) || (begin.0 <= addr_of(a3, a2, a1) < range.begin * PAGE_SIZE),
                forall|ad: u64|
                    begin.0 <= ad < range.begin * PAGE_SIZE && ad % PAGE_SIZE == 0
                        ==> #[trigger] self.page_mapped(ad),
                forall|ad: u64|
                    begin.0 <= ad < range.begin * PAGE_SIZE && ad % PAGE_SIZE == 0 ==> (
                    #[trigger] self.page_leaf(ad)).spec_flags() == attrib.apply_spec(
                        FLAG_VALID | FLAG_READABLE | FLAG_WRITABLE | FLAG_ACCESSED | FLAG_DIRTY,
                    ),
                handler matches MemHandler::Linear(h) ==> forall|ad: u64|
                    begin.0 <= ad < range.begin * PAGE_SIZE && ad % PAGE_SIZE == 0 ==> (
                    #[trigger] self.page_leaf(ad)).spec_ppn() == ((ad - h.offset) as u64) / PAGE_SIZE,
                forall|a3: int, a2: int, a1: int|
                    #[trigger] old(self).tbl.mapped(a3, a2, a1) ==> self.tbl.leaf(a3, a2, a1)
                        == old(self).tbl.leaf(a3, a2, a1),
            ensures
                range.begin == range.end,
            decreases range.end - range.begin,
        {
            let ghost pre_range = range;
            let ghost ms_pre = *self;
            let ghost fa_head = *fa;
            let ghost tbl_head = self.tbl;
            let page = match range.next() {
                Some(p) => p,
                None => {
                    break ;
                },
            };
            let ghost v = pre_range.begin;
            let ghost ad = page.0.0;
            proof {
                assert(ad == v * PAGE_SIZE);
                assert(begin.0 <= ad) by (nonlinear_arith)
                    requires
                        ad == v * 4096,
                        bvpn <= v,
                        begin.0 == bvpn * 4096,
                        bvpn == begin.0 / 4096,
                        begin.0 % 4096 == 0,
                {
                    vstd::arithmetic::div_mod::lemma_fundamental_div_mod(begin.0 as int, 4096);
                }
                vstd::arithmetic::div_mod::lemma_fundamental_div_mod(begin.0 as int, 4096);
                vstd::arithmetic::div_mod::lemma_fundamental_div_mod(end.0 as int, 4096);
                assert(begin.0 == bvpn * 4096);
                assert(end.0 == evpn * 4096);
                assert(begin.0 <= ad && ad < end.0 && ad % 4096 == 0) by (nonlinear_arith)
                    requires
                        ad == v * 4096,
                        bvpn <= v < evpn,
                        begin.0 == bvpn * 4096,
                        end.0 == evpn * 4096,
                ;
                lemma_addr_of_roundtrip(ad);
                // the current page sits at or below the range's last page,
                // so the region prefixes still to be entered are counted
                // nonnegatively
                assert(ad <= last_addr) by (nonlinear_arith)
                    requires
                        ad == v * 4096,
                        v < evpn,
                        last_addr == end.0 - 4096,
                        end.0 == evpn * 4096,
                ;
                assert(ad / 0x20_0000 <= last_addr / 0x20_0000 && ad / 0x4000_0000 <= last_addr
                    / 0x4000_0000) by (bit_vector)
                    requires
                        ad <= last_addr,
                ;
                // the page cannot already be mapped: a mapping would lie in
                // an existing area, which the overlap check ruled out, or in
                // the freshly mapped prefix, which ends below this page
                if self.tbl.mapped(idx3(ad), idx2(ad), idx1(ad)) {
                    assert(old(self).covered(ad) || (begin.0 <= ad < pre_range.begin
                        * PAGE_SIZE));
                    if old(self).covered(ad) {
                        let i = choose|i: int|
                            0 <= i < old(self).areas@.len() && area_covers(
                                #[trigger] old(self).areas@[i],
                                ad,
                            );
                        let a = old(self).areas@[i];
                        assert(area_wf(a));
                        assert(a.begin.0 <= ad < a.end.0);
                        assert(a.begin.0 / 4096 <= v < a.end.0 / 4096) by (nonlinear_arith)
                            requires
                                a.begin.0 <= ad < a.end.0,
                                ad == v * 4096,
                                a.begin.0 % 4096 == 0,
                                a.end.0 % 4096 == 0,
                        {
                            vstd::arithmetic::div_mod::lemma_fundamental_div_mod(
                                a.begin.0 as int,
                                4096,
                            );
                            vstd::arithmetic::div_mod::lemma_fundamental_div_mod(
                                a.end.0 as int,
                                4096,
                            );
                        }
                        assert(bvpn <= v < evpn);
                        assert(area_overlaps(a, begin.0, end.0));
                        assert(false);
                    } else {
                        assert(ad < pre_range.begin * PAGE_SIZE);
                        assert(false) by (nonlinear_arith)
                            requires
                                ad == v * 4096,
                                ad < pre_range.begin * 4096,
                                v == pre_range.begin,
                        ;
                    }
                }
            }
            proof {
                assert(1u64 | 2 | 4 <= 0x3FF) by (bit_vector);
            }
            let flags = PageTableFlags::new(FLAG_VALID | FLAG_READABLE | FLAG_WRITABLE);
            let frame = match handler {
                MemHandler::Linear(h) => {
                    proof {
                        assert(ad - h.offset < 0x1_0000_0000);
                        assert((ad - h.offset) % 4096 == 0 && ((ad as int - h.offset) / 4096)
                            < 0x1_0000_0000) by (nonlinear_arith)
                            requires
                                ad % 4096 == 0,
                                h.offset % 4096 == 0,
                                ad >= h.offset,
                                ad - h.offset < 0x1_0000_0000,
                        ;
                    }
                    Frame::from_addr(PhysAddr::new(page.0.as_u64() - h.offset))
                },
                MemHandler::ByFrame(_) => {
                    let p = match fa.allocate() {
                        Some(p) => p,
                        None => {
                            proof {
                                // the budget invariant promises at least the
                                // data frame for this page
                                assert(fa_head.free_count() >= remaining_need(
                                    tbl_head,
                                    v,
                                    evpn,
                                    last_addr,
                                    handler,
                                ));
                                assert(remaining_need(tbl_head, v, evpn, last_addr, handler)
                                    >= 1);
                                assert(false);
                            }
                            0
                        },
                    };
                    Frame::from_ppn(p as u64)
                },
            };
            proof {
                assert(frame.number_spec() < 0x1_0000_0000) by {
                    match handler {
                        MemHandler::Linear(h) => {},
                        MemHandler::ByFrame(_) => {},
                    }
                }
            }
            let ghost tbl_pre = ms_pre.tbl;
            let ghost fa_pre = *fa;
            proof {
                assert(self.tbl == tbl_pre);
            }
            let flush = match self.tbl.map(fa, page, frame, flags) {
                Ok(f) => f,
                Err(e) => {
                    proof {
                        let t3 = idx3(ad);
                        let t2 = idx2(ad);
                        let ind2: int = if tbl_pre.valid2(t3, t2) {
                            0
                        } else {
                            1
                        };
                        let ind3: int = if tbl_pre.valid3(t3) {
                            0
                        } else {
                            1
                        };
                        assert(tbl_pre.tables_needed(t3, t2) == ind2 + ind3);
                        assert(e != MapError::PageAlreadyMapped);
                        // the budget invariant leaves the missing levels
                        // covered even after the data frame was drawn
                        assert(fa_head.free_count() >= remaining_need(
                            tbl_head,
                            v,
                            evpn,
                            last_addr,
                            handler,
                        ));
                        assert(fa_pre.free_count() >= ind2 + ind3);
                        assert(false);
                    }
                    crate::sv39::Flush::new(page)
                },
            };
            flush.ignore();
            let e = match self.tbl.entry(page) {
                Ok(e) => e,
                Err(_) => {
                    proof {
                        assert(false);
                    }
                    crate::page::PageTableEntry(0)
                },
            };
            let ghost tbl_mid = self.tbl;
            let flush2 = match self.tbl.update_flags(page, attrib.apply(e.flags())) {
                Ok(f) => f,
                Err(_) => {
                    proof {
                        assert(false);
                    }
                    crate::sv39::Flush::new(page)
                },
            };
            flush2.ignore();
            proof {
                let t3 = idx3(ad);
                let t2 = idx2(ad);
                let t1 = idx1(ad);
                assert(self.page_mapped(ad)) by {
                    assert(self.tbl.leaf(t3, t2, t1).spec_flags() == attrib.apply_spec(
                        tbl_mid.leaf(t3, t2, t1).spec_flags(),
                    ));
                    let b0 = tbl_mid.leaf(t3, t2, t1).spec_flags();
                    let rb = attrib.readable;
                    let wb = attrib.writable;
                    let xb = attrib.executable;
                    assert({
                        let b1 = ((b0 & !(2u64 | 4 | 8)) | 1) as u64;
                        let b2 = if rb {
                            (b1 | 2) as u64
                        } else {
                            b1
                        };
                        let b3 = if wb {
                            (b2 | 4) as u64
                        } else {
                            b2
                        };
                        let b4 = if xb {
                            (b3 | 8) as u64
                        } else {
                            b3
                        };
                        b4 & 1 == 1
                    }) by (bit_vector);
                    assert(attrib.apply_spec(b0) & 1 == 1);
                    let fl = self.tbl.leaf(t3, t2, t1).spec_flags();
                    let lw = self.tbl.leaf(t3, t2, t1).0;
                    assert(fl & 1 == 1 ==> lw != 0) by (bit_vector)
                        requires
                            fl == lw & 0x3FF,
                    ;
                }
                // the loop's per-page clauses for all earlier pages carry
                // over, since only this page's leaf changed
                assert(range.begin * PAGE_SIZE == ad + PAGE_SIZE) by (nonlinear_arith)
                    requires
                        range.begin == v + 1,
                        ad == v * 4096,
                ;
                assert forall|ad2: u64|
                    begin.0 <= ad2 < range.begin * PAGE_SIZE && ad2 % PAGE_SIZE == 0 && ad2 != ad
                        implies ad2 < ad && #[trigger] self.page_leaf(ad2) == tbl_pre.leaf(
                    idx3(ad2),
                    idx2(ad2),
                    idx1(ad2),
                ) by {
                    assert(ad2 <= ad) by (nonlinear_arith)
                        requires
                            ad2 < ad + 4096,
                            ad2 % 4096 == 0,
                            ad % 4096 == 0,
                    {
                        vstd::arithmetic::div_mod::lemma_fundamental_div_mod(ad2 as int, 4096);
                        vstd::arithmetic::div_mod::lemma_fundamental_div_mod(ad as int, 4096);
                    }
                    assert(ad2 < end.0);
                    lemma_canonical_between(begin.0, end.0, ad2);
                    lemma_addr_of_roundtrip(ad2);
                    if idx3(ad2) == t3 && idx2(ad2) == t2 && idx1(ad2) == t1 {
                        crate::addr::lemma_triple_injective(ad2, ad);
                        assert(false);
                    }
                    assert(self.tbl.leaf(idx3(ad2), idx2(ad2), idx1(ad2)) == tbl_mid.leaf(
                        idx3(ad2),
                        idx2(ad2),
                        idx1(ad2),
                    ));
                    assert(tbl_mid.leaf(idx3(ad2), idx2(ad2), idx1(ad2)) == tbl_pre.leaf(
                        idx3(ad2),
                        idx2(ad2),
                        idx1(ad2),
                    ));
                }
                assert forall|ad2: u64|
                    begin.0 <= ad2 < range.begin * PAGE_SIZE && ad2 % PAGE_SIZE == 0
                        implies #[trigger] self.page_mapped(ad2) by {
                    if ad2 != ad {
                        assert(ms_pre.page_mapped(ad2));
                        assert(self.page_leaf(ad2) == ms_pre.page_leaf(ad2));
                    }
                }
                assert forall|ad2: u64|
                    begin.0 <= ad2 < range.begin * PAGE_SIZE && ad2 % PAGE_SIZE == 0 implies (
                #[trigger] self.page_leaf(ad2)).spec_flags() == attrib.apply_spec(
                    FLAG_VALID | FLAG_READABLE | FLAG_WRITABLE | FLAG_ACCESSED | FLAG_DIRTY,
                ) by {
                    if ad2 == ad {
                        assert(tbl_mid.leaf(t3, t2, t1).spec_flags() == flags.bits | FLAG_ACCESSED
                            | FLAG_DIRTY);
                        assert(self.tbl.leaf(t3, t2, t1).spec_flags() == attrib.apply_spec(
                            flags.bits | FLAG_ACCESSED | FLAG_DIRTY,
                        ));
                    } else {
                        assert(self.page_leaf(ad2) == ms_pre.page_leaf(ad2));
                        assert(ms_pre.page_leaf(ad2).spec_flags() == attrib.apply_spec(
                            FLAG_VALID | FLAG_READABLE | FLAG_WRITABLE | FLAG_ACCESSED
                                | FLAG_DIRTY,
                        ));
                    }
                }
                assert(handler matches MemHandler::Linear(h) ==> forall|ad2: u64|
                    begin.0 <= ad2 < range.begin * PAGE_SIZE && ad2 % PAGE_SIZE == 0 ==> (
                    #[trigger] self.page_leaf(ad2)).spec_ppn() == ((ad2 - h.offset) as u64)
                        / PAGE_SIZE) by {
                    match handler {
                        MemHandler::Linear(h) => {
                            assert forall|ad2: u64|
                                begin.0 <= ad2 < range.begin * PAGE_SIZE && ad2 % PAGE_SIZE == 0
                                    implies (#[trigger] self.page_leaf(ad2)).spec_ppn() == ((ad2
                                    - h.offset) as u64) / PAGE_SIZE by {
                                if ad2 != ad {
                                    assert(self.page_leaf(ad2) == ms_pre.page_leaf(ad2));
                                    assert(ms_pre.page_leaf(ad2).spec_ppn() == ((ad2 - h.offset)
                                        as u64) / PAGE_SIZE);
                                }
                                if ad2 == ad {
                                    assert(self.tbl.leaf(t3, t2, t1).spec_ppn() == tbl_mid.leaf(
                                        t3,
                                        t2,
                                        t1,
                                    ).spec_ppn());
                                    assert(tbl_mid.leaf(t3, t2, t1).spec_ppn()
                                        == frame.number_spec());
                                }
                            }
                        },
                        MemHandler::ByFrame(_) => {},
                    }
                }
                assert forall|a3: int, a2: int, a1: int|
                    #[trigger] self.tbl.mapped(a3, a2, a1) implies old(self).covered(
                    addr_of(a3, a2, a1),
                ) || (begin.0 <= addr_of(a3, a2, a1) < range.begin * PAGE_SIZE) by {
                    if a3 == t3 && a2 == t2 && a1 == t1 {
                        assert(addr_of(a3, a2, a1) == ad);
                    } else {
                        assert(self.tbl.leaf(a3, a2, a1) == tbl_mid.leaf(a3, a2, a1));
                        assert(tbl_mid.leaf(a3, a2, a1) == tbl_pre.leaf(a3, a2, a1));
                        assert(tbl_pre.mapped(a3, a2, a1));
                        if !old(self).covered(addr_of(a3, a2, a1)) {
                            assert(begin.0 <= addr_of(a3, a2, a1) < pre_range.begin * PAGE_SIZE);
                            assert(pre_range.begin * PAGE_SIZE <= range.begin * PAGE_SIZE)
                                by (nonlinear_arith)
                                requires
                                    pre_range.begin <= range.begin,
                            ;
                        }
                    }
                }
                assert forall|a3: int, a2: int, a1: int|
                    #[trigger] old(self).tbl.mapped(a3, a2, a1) implies self.tbl.leaf(a3, a2, a1)
                    == old(self).tbl.leaf(a3, a2, a1) by {
                    if a3 == t3 && a2 == t2 && a1 == t1 {
                        assert(tbl_pre.leaf(a3, a2, a1) == old(self).tbl.leaf(a3, a2, a1));
                        assert(!tbl_pre.mapped(a3, a2, a1));
                        assert(false);
                    } else {
                        assert(self.tbl.leaf(a3, a2, a1) == tbl_mid.leaf(a3, a2, a1));
                        assert(tbl_mid.leaf(a3, a2, a1) == tbl_pre.leaf(a3, a2, a1));
                    }
                }
                // budget: the frames this page consumed are covered by the
                // need it retires, so the remaining need still fits in the
                // remaining free count
                let ind2: int = if tbl_pre.valid2(t3, t2) {
                    0
                } else {
                    1
                };
                let ind3: int = if tbl_pre.valid3(t3) {
                    0
                } else {
                    1
                };
                let data: int = if handler is ByFrame {
                    1
                } else {
                    0
                };
                assert(tbl_pre.tables_needed(t3, t2) == ind2 + ind3);
                assert(fa.free_count() == fa_head.free_count() - data - (ind2 + ind3));
                assert(self.tbl.valid2(t3, t2) && self.tbl.valid3(t3));
                if range.begin < evpn {
                    let an = ((v + 1) * PAGE_SIZE) as u64;
                    assert(an == ad + 4096) by (nonlinear_arith)
                        requires
                            ad == v * 4096,
                            an == (v + 1) * 4096,
                            v + 1 <= evpn,
                            evpn * 4096 == end.0,
                    ;
                    lemma_region_step(ad);
                    lemma_region_indices(ad, an);
                    let n3 = idx3(an);
                    let n2 = idx2(an);
                    let ind2n: int = if self.tbl.valid2(n3, n2) {
                        0
                    } else {
                        1
                    };
                    let ind3n: int = if self.tbl.valid3(n3) {
                        0
                    } else {
                        1
                    };
                    assert(an <= last_addr) by (nonlinear_arith)
                        requires
                            an == (v + 1) * 4096,
                            v + 1 < evpn,
                            last_addr == end.0 - 4096,
                            end.0 == evpn * 4096,
                    ;
                    assert(an / 0x20_0000 <= last_addr / 0x20_0000 && an / 0x4000_0000
                        <= last_addr / 0x4000_0000) by (bit_vector)
                        requires
                            an <= last_addr,
                    ;
                    if an / 0x20_0000 == ad / 0x20_0000 {
                        assert(n3 == t3 && n2 == t2);
                        assert(ind2n == 0 && ind3n == 0);
                        assert(an / 0x4000_0000 == ad / 0x4000_0000);
                    } else {
                        if an / 0x4000_0000 == ad / 0x4000_0000 {
                            assert(n3 == t3);
                            assert(ind3n == 0);
                        }
                    }
                    assert(remaining_need(self.tbl, range.begin, evpn, last_addr, handler) + data
                        + ind2 + ind3 <= remaining_need(tbl_head, v, evpn, last_addr, handler));
                } else {
                    assert(remaining_need(self.tbl, range.begin, evpn, last_addr, handler) == 0);
                    assert(ad == last_addr) by (nonlinear_arith)
                        requires
                            ad == v * 4096,
                            v + 1 == evpn,
                            last_addr == end.0 - 4096,
                            end.0 == evpn * 4096,
                    ;
                }
            }
        }
        let area = MemArea::new(begin, end, handler, attrib);
        let ghost ms_exit = *self;
        self.areas.push(area);
        proof {
            let s2 = *self;
            let n = old(self).areas@.len() as int;
            assert(s2.areas@ == old(self).areas@.push(area));
            assert forall|i: int, j: int|
                0 <= i < s2.areas@.len() && 0 <= j < s2.areas@.len() && i != j implies
                !area_overlaps(
                #[trigger] s2.areas@[i],
                (#[trigger] s2.areas@[j]).begin.0,
                s2.areas@[j].end.0,
            ) by {
                if i < n && j < n {
                    assert(!area_overlaps(old(self).areas@[i], old(self).areas@[j].begin.0, old(
                        self,
                    ).areas@[j].end.0));
                } else if j == n {
                    assert(s2.areas@[i] == old(self).areas@[i]);
                    assert(!area_overlaps(old(self).areas@[i], begin.0, end.0));
                } else {
                    // the new area against an old one: overlap is symmetric
                    // on page ranges
                    assert(i == n && j < n);
                    assert(!area_overlaps(old(self).areas@[j], begin.0, end.0));
                    assert(area_wf(old(self).areas@[j]));
                }
            }
            assert forall|a3: int, a2: int, a1: int|
                #[trigger] s2.tbl.mapped(a3, a2, a1) implies s2.covered(addr_of(a3, a2, a1)) by {
                if old(self).covered(addr_of(a3, a2, a1)) {
                    let i = choose|i: int|
                        0 <= i < old(self).areas@.len() && area_covers(
                            #[trigger] old(self).areas@[i],
                            addr_of(a3, a2, a1),
                        );
                    assert(s2.areas@[i] == old(self).areas@[i]);
                    assert(area_covers(s2.areas@[i], addr_of(a3, a2, a1)));
                } else {
                    assert(begin.0 <= addr_of(a3, a2, a1) < end.0) by {
                        assert(range.begin == evpn);
                        assert(range.begin * PAGE_SIZE == end.0) by (nonlinear_arith)
                            requires
                                range.begin == evpn,
                                end.0 == evpn * 4096,
                        ;
                    }
                    assert(area_covers(s2.areas@[n], addr_of(a3, a2, a1)));
                }
            }
            assert(range.begin * PAGE_SIZE == end.0) by (nonlinear_arith)
                requires
                    range.begin == evpn,
                    end.0 == evpn * 4096,
            ;
            let sf = *self;
            assert forall|ad: u64|
                begin.0 <= ad < end.0 && ad % PAGE_SIZE == 0 implies #[trigger] sf.page_mapped(
                ad,
            ) by {
                assert(ad < range.begin * PAGE_SIZE);
                assert(ms_exit.page_mapped(ad));
                assert(ms_exit.tbl == sf.tbl);
            }
            assert forall|ad: u64|
                begin.0 <= ad < end.0 && ad % PAGE_SIZE == 0 implies (#[trigger] sf.page_leaf(
                ad,
            )).spec_flags() == attrib.apply_spec(
                FLAG_VALID | FLAG_READABLE | FLAG_WRITABLE | FLAG_ACCESSED | FLAG_DIRTY,
            ) by {
                assert(ad < range.begin * PAGE_SIZE);
                assert(ms_exit.page_leaf(ad).spec_flags() == attrib.apply_spec(
                    FLAG_VALID | FLAG_READABLE | FLAG_WRITABLE | FLAG_ACCESSED | FLAG_DIRTY,
                ));
                assert(ms_exit.tbl == sf.tbl);
            }
            match handler {
                MemHandler::Linear(h) => {
                    assert forall|ad: u64|
                        begin.0 <= ad < end.0 && ad % PAGE_SIZE == 0 implies (
                    #[trigger] sf.page_leaf(ad)).spec_ppn() == ((ad - h.offset) as u64)
                        / PAGE_SIZE by {
                        assert(ad < range.begin * PAGE_SIZE);
                        assert(ms_exit.page_leaf(ad).spec_ppn() == ((ad - h.offset) as u64)
                            / PAGE_SIZE);
                        assert(ms_exit.tbl == sf.tbl);
                    }
                },
                MemHandler::ByFrame(_) => {},
            }
            assert(sf.range_installed(begin.0, end.0, attrib, handler));
            assert(self.range_installed(begin.0, end.0, attrib, handler));
        }
        Ok(())
    }
}

/// The linker-provided section boundaries of the kernel image, captured
/// once at startup to size the kernel's memory areas.
#[derive(Debug, Copy, Clone, PartialEq, Eq, Structural)]
pub struct KernelLayout {
    /// Start of kernel code.
    pub stext: u64,
    /// End of kernel code.
    pub etext: u64,
    /// Start of read-only data.
    pub srodata: u64,
    /// End of read-only data.
    pub erodata: u64,
    /// Start of initialized data.
    pub sdata: u64,
    /// End of initialized data.
    pub edata: u64,
    /// Start of zero-initialized data.
    pub sbss: u64,
    /// End of zero-initialized data.
    pub ebss: u64,
    /// End of the kernel image.
    pub end: u64,
}

/// Frames building the whole kernel address space can consume: the five
/// areas' capacities summed.
pub open spec fn kmap_capacity(l: KernelLayout) -> int {
    let lin = MemHandler::Linear((Linear { offset: crate::config::PHYSICAL_MEMORY_OFFSET }));
    push_capacity(l.stext, l.etext, lin) + push_capacity(l.srodata, l.erodata, lin)
        + push_capacity(l.sdata, l.edata, lin) + push_capacity(l.sbss, l.ebss, lin)
        + push_capacity(
        ((l.end / PAGE_SIZE + 1) * PAGE_SIZE) as u64,
        (crate::config::PHYSICAL_MEMORY_END + crate::config::PHYSICAL_MEMORY_OFFSET) as u64,
        lin,
    )
}

/// A usable layout: section boundaries in ascending order within the
/// kernel's linked range, each on a page boundary, with room left before
/// the end of the remapped physical window.
pub open spec fn layout_wf(l: KernelLayout) -> bool {
    &&& crate::config::KERNEL_BEGIN_VADDR <= l.stext
    &&& l.stext <= l.etext <= l.srodata
    &&& l.srodata <= l.erodata <= l.sdata
    &&& l.sdata <= l.edata <= l.sbss
    &&& l.sbss <= l.ebss <= l.end
    &&& l.stext % PAGE_SIZE == 0
    &&& l.etext % PAGE_SIZE == 0
    &&& l.srodata % PAGE_SIZE == 0
    &&& l.erodata % PAGE_SIZE == 0
    &&& l.sdata % PAGE_SIZE == 0
    &&& l.edata % PAGE_SIZE == 0
    &&& l.sbss % PAGE_SIZE == 0
    &&& l.ebss % PAGE_SIZE == 0
    &&& l.end + PAGE_SIZE <= crate::config::PHYSICAL_MEMORY_END
        + crate::config::PHYSICAL_MEMORY_OFFSET
}

/// Every address at or above the bottom of the kernel's linked window is
/// canonically sign-extended on the high side of the address hole.
pub proof fn lemma_high_half_canonical(a: u64)
    requires
        a >= 0xFFFF_FFC0_0000_0000,
    ensures
        canonical(a),
        bit_at(a, 38),
{
    assert(a >= 0xFFFF_FFC0_0000_0000 ==> ((a >> 38) & 1 == 1) && (a >> 39) & 0x1FF_FFFF
        == 0x1FF_FFFF) by (bit_vector);
    crate::bits::lemma_bits_of_shapes(a);
}

impl MemSet {
    /// Build the kernel's own address space: code read-execute, read-only
    /// data read-only, data and zero-initialized data read-write, and one
    /// trailing read-write area linearly remapping all remaining physical
    /// memory — every area linear-mapped at the fixed kernel offset.
    pub fn kmap(&mut self, layout: KernelLayout, fa: &mut SegmentTreeAllocator) -> (r: Result<
        (),
        MemSetError,
    >)
        requires
            old(self).wf(),
            old(fa).wf(),
            old(self).tbl.owns_tables(*old(fa)),
            old(fa).cap <= 0x10_0000,
            old(self).areas@.len() == 0,
            layout_wf(layout),
            old(fa).free_count() >= kmap_capacity(layout),
        ensures
            final(fa).wf(),
            final(self).tbl.owns_tables(*final(fa)),
            final(fa).cap == old(fa).cap,
            final(fa).low == old(fa).low,
            final(fa).high == old(fa).high,
            r is Ok,
            r is Ok ==> {
                &&& final(self).wf()
                &&& final(self).areas@.len() == 5
                &&& final(self).range_installed(
                    layout.stext,
                    layout.etext,
                    (MemAttrib { readable: true, writable: false, executable: true, user: false }),
                    MemHandler::Linear(
                        (Linear { offset: crate::config::PHYSICAL_MEMORY_OFFSET }),
                    ),
                )
                &&& final(self).range_installed(
                    layout.srodata,
                    layout.erodata,
                    (MemAttrib { readable: true, writable: false, executable: false, user: false }),
                    MemHandler::Linear(
                        (Linear { offset: crate::config::PHYSICAL_MEMORY_OFFSET }),
                    ),
                )
                &&& final(self).range_installed(
                    layout.sdata,
                    layout.edata,
                    (MemAttrib { readable: true, writable: true, executable: false, user: false }),
                    MemHandler::Linear(
                        (Linear { offset: crate::config::PHYSICAL_MEMORY_OFFSET }),
                    ),
                )
                &&& final(self).range_installed(
                    layout.sbss,
                    layout.ebss,
                    (MemAttrib { readable: true, writable: true, executable: false, user: false }),
                    MemHandler::Linear(
                        (Linear { offset: crate::config::PHYSICAL_MEMORY_OFFSET }),
                    ),
                )
                &&& final(self).range_installed(
                    ((layout.end / PAGE_SIZE + 1) * PAGE_SIZE) as u64,
                    (crate::config::PHYSICAL_MEMORY_END
                        + crate::config::PHYSICAL_MEMORY_OFFSET) as u64,
                    (MemAttrib { readable: true, writable: true, executable: false, user: false }),
                    MemHandler::Linear(
                        (Linear { offset: crate::config::PHYSICAL_MEMORY_OFFSET }),
                    ),
                )
            },
    {
        let offset = crate::config::PHYSICAL_MEMORY_OFFSET;
        let linear = MemHandler::Linear(Linear::new(offset));
        let ghost hi_end = (crate::config::PHYSICAL_MEMORY_END
            + crate::config::PHYSICAL_MEMORY_OFFSET) as u64;
        let ghost rb = ((layout.end / PAGE_SIZE + 1) * PAGE_SIZE) as u64;
        proof {
            lemma_capacity_nonneg(layout.stext, layout.etext, linear);
            lemma_capacity_nonneg(layout.srodata, layout.erodata, linear);
            lemma_capacity_nonneg(layout.sdata, layout.edata, linear);
            lemma_capacity_nonneg(layout.sbss, layout.ebss, linear);
            lemma_capacity_nonneg(rb, hi_end, linear);
        }
        proof {
            lemma_high_half_canonical(layout.stext);
            lemma_high_half_canonical(layout.etext);
            lemma_high_half_canonical(layout.srodata);
            lemma_high_half_canonical(layout.erodata);
            lemma_high_half_canonical(layout.sdata);
            lemma_high_half_canonical(layout.edata);
            lemma_high_half_canonical(layout.sbss);
            lemma_high_half_canonical(layout.ebss);
            lemma_high_half_canonical(hi_end);
        }
        let r1 = self.push(
            VirtAddr(layout.stext),
            VirtAddr(layout.etext),
            linear,
            MemAttrib::new().readable(true).executable(true),
            fa,
        );
        match r1 {
            Ok(()) => (),
            Err(e) => {
                proof {
                    assert(false);
                }
                return Err(e);
            },
        }
        let ghost m1 = *self;
        let r2 = self.push(
            VirtAddr(layout.srodata),
            VirtAddr(layout.erodata),
            linear,
            MemAttrib::new().readable(true),
            fa,
        );
        match r2 {
            Ok(()) => (),
            Err(e) => {
                proof {
                    lemma_section_disjoint(layout.stext, layout.etext, layout.srodata,
                        layout.erodata);
                    assert(false);
                }
                return Err(e);
            },
        }
        let ghost m2 = *self;
        let r3 = self.push(
            VirtAddr(layout.sdata),
            VirtAddr(layout.edata),
            linear,
            MemAttrib::new().readable(true).writable(true),
            fa,
        );
        match r3 {
            Ok(()) => (),
            Err(e) => {
                proof {
                    lemma_section_disjoint(layout.stext, layout.etext, layout.sdata, layout.edata);
                    lemma_section_disjoint(layout.srodata, layout.erodata, layout.sdata,
                        layout.edata);
                    assert(false);
                }
                return Err(e);
            },
        }
        let ghost m3 = *self;
        let r4 = self.push(
            VirtAddr(layout.sbss),
            VirtAddr(layout.ebss),
            linear,
            MemAttrib::new().readable(true).writable(true),
            fa,
        );
        match r4 {
            Ok(()) => (),
            Err(e) => {
                proof {
                    lemma_section_disjoint(layout.stext, layout.etext, layout.sbss, layout.ebss);
                    lemma_section_disjoint(layout.srodata, layout.erodata, layout.sbss,
                        layout.ebss);
                    lemma_section_disjoint(layout.sdata, layout.edata, layout.sbss, layout.ebss);
                    assert(false);
                }
                return Err(e);
            },
        }
        let ghost m4 = *self;
        let remap_begin = (layout.end / PAGE_SIZE + 1) * PAGE_SIZE;
        let remap_end = crate::config::PHYSICAL_MEMORY_END + crate::config::PHYSICAL_MEMORY_OFFSET;
        proof {
            lemma_high_half_canonical(remap_begin);
            assert(layout.ebss <= remap_begin) by (nonlinear_arith)
                requires
                    layout.ebss <= layout.end,
                    remap_begin == (layout.end / 4096 + 1) * 4096,
            {
                vstd::arithmetic::div_mod::lemma_fundamental_div_mod(layout.end as int, 4096);
            }
            assert(remap_begin % 4096 == 0) by (nonlinear_arith)
                requires
                    remap_begin == (layout.end / 4096 + 1) * 4096,
            ;
            assert(remap_begin <= layout.end + 4096) by (nonlinear_arith)
                requires
                    remap_begin == (layout.end / 4096 + 1) * 4096,
            {
                vstd::arithmetic::div_mod::lemma_fundamental_div_mod(layout.end as int, 4096);
            }
        }
        let r5 = self.push(
            VirtAddr(remap_begin),
            VirtAddr(remap_end),
            linear,
            MemAttrib::new().readable(true).writable(true),
            fa,
        );
        match r5 {
            Ok(()) => (),
            Err(e) => {
                proof {
                    lemma_section_disjoint(layout.stext, layout.etext, remap_begin, remap_end);
                    lemma_section_disjoint(layout.srodata, layout.erodata, remap_begin, remap_end);
                    lemma_section_disjoint(layout.sdata, layout.edata, remap_begin, remap_end);
                    lemma_section_disjoint(layout.sbss, layout.ebss, remap_begin, remap_end);
                    assert(false);
                }
                return Err(e);
            },
        }
        proof {
            let m5 = *self;
            let lin = MemHandler::Linear((Linear { offset: crate::config::PHYSICAL_MEMORY_OFFSET }));
            let a_rx = MemAttrib { readable: true, writable: false, executable: true, user: false };
            let a_r = MemAttrib { readable: true, writable: false, executable: false, user: false };
            let a_rw = MemAttrib { readable: true, writable: true, executable: false, user: false };
            lemma_push_preserves_installed(m1, m2, layout.stext, layout.etext, a_rx, lin);
            lemma_push_preserves_installed(m2, m3, layout.stext, layout.etext, a_rx, lin);
            lemma_push_preserves_installed(m3, m4, layout.stext, layout.etext, a_rx, lin);
            lemma_push_preserves_installed(m4, m5, layout.stext, layout.etext, a_rx, lin);
            lemma_push_preserves_installed(m2, m3, layout.srodata, layout.erodata, a_r, lin);
            lemma_push_preserves_installed(m3, m4, layout.srodata, layout.erodata, a_r, lin);
            lemma_push_preserves_installed(m4, m5, layout.srodata, layout.erodata, a_r, lin);
            lemma_push_preserves_installed(m3, m4, layout.sdata, layout.edata, a_rw, lin);
            lemma_push_preserves_installed(m4, m5, layout.sdata, layout.edata, a_rw, lin);
            lemma_push_preserves_installed(m4, m5, layout.sbss, layout.ebss, a_rw, lin);
        }
        Ok(())
    }
}

/// A later push leaves an already-installed range installed: it never
/// touches a mapped leaf.
proof fn lemma_push_preserves_installed(pre: MemSet, post: MemSet, b: u64, e: u64,
    at: MemAttrib, h: MemHandler)
    requires
        pre.range_installed(b, e, at, h),
        forall|a3: int, a2: int, a1: int|
            #[trigger] pre.tbl.mapped(a3, a2, a1) ==> post.tbl.leaf(a3, a2, a1) == pre.tbl.leaf(
                a3,
                a2,
                a1,
            ),
    ensures
        post.range_installed(b, e, at, h),
{
    assert forall|ad: u64| b <= ad < e && ad % PAGE_SIZE == 0 implies #[trigger] post.page_mapped(
        ad,
    ) by {
        assert(pre.page_mapped(ad));
        assert(pre.tbl.mapped(idx3(ad), idx2(ad), idx1(ad)));
    }
    assert forall|ad: u64|
        b <= ad < e && ad % PAGE_SIZE == 0 implies (#[trigger] post.page_leaf(ad)).spec_flags()
        == at.apply_spec(FLAG_VALID | FLAG_READABLE | FLAG_WRITABLE | FLAG_ACCESSED | FLAG_DIRTY) by {
        assert(pre.page_mapped(ad));
        assert(pre.tbl.mapped(idx3(ad), idx2(ad), idx1(ad)));
        assert(post.page_leaf(ad) == pre.page_leaf(ad));
    }
    match h {
        MemHandler::Linear(hh) => {
            assert forall|ad: u64|
                b <= ad < e && ad % PAGE_SIZE == 0 implies (#[trigger] post.page_leaf(
                ad,
            )).spec_ppn() == ((ad - hh.offset) as u64) / PAGE_SIZE by {
                assert(pre.page_mapped(ad));
                assert(pre.tbl.mapped(idx3(ad), idx2(ad), idx1(ad)));
                assert(post.page_leaf(ad) == pre.page_leaf(ad));
            }
        },
        MemHandler::ByFrame(_) => {},
    }
}

/// Two page-aligned ranges where the first ends at or before the second
/// begins cover disjoint pages.
pub proof fn lemma_section_disjoint(b1: u64, e1: u64, b2: u64, e2: u64)
    requires
        e1 <= b2,
    ensures
        !({
            let a = MemArea {
                begin: VirtAddr(b1),
                end: VirtAddr(e1),
                handler: MemHandler::ByFrame(ByFrame),
                attrib: MemAttrib { readable: false, writable: false, executable: false, user: false },
            };
            area_overlaps(a, b2, e2)
        }),
{
    assert(e1 / PAGE_SIZE <= b2 / PAGE_SIZE) by (nonlinear_arith)
        requires
            e1 <= b2,
    ;
}

} // verus!

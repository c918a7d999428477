//! Virtual-page handles, page-table entries, and one page-table level: the
//! building blocks of the Sv39 radix tree.
use vstd::prelude::*;

use crate::addr::{canonical, lemma_canonical_between, VirtAddr};
use crate::config::{PAGE_ENTRIES, PAGE_SIZE};
use crate::frame::Frame;

verus! {

/// A page-table entry is VALID when this bit is set.
pub const FLAG_VALID: u64 = 1;

/// Leaf entries with this bit allow reads.
pub const FLAG_READABLE: u64 = 2;

/// Leaf entries with this bit allow writes.
pub const FLAG_WRITABLE: u64 = 4;

/// Leaf entries with this bit allow instruction fetch.
pub const FLAG_EXECUTABLE: u64 = 8;

/// Leaf entries with this bit are reachable from user mode.
pub const FLAG_USER: u64 = 16;

/// Leaf entries with this bit are global across address spaces.
pub const FLAG_GLOBAL: u64 = 32;

/// The hardware "accessed" bit; set preemptively on every installed leaf.
pub const FLAG_ACCESSED: u64 = 64;

/// The hardware "dirty" bit; set preemptively on every installed leaf.
pub const FLAG_DIRTY: u64 = 128;

/// Mask of all flag bits of an entry (the low ten bits).
pub const FLAG_MASK: u64 = 0x3FF;

/// The permission and status bits of one page-table entry.
#[derive(Debug, Copy, Clone, PartialEq, Eq, Structural)]
pub struct PageTableFlags {
    pub bits: u64,
}

impl PageTableFlags {
    /// No flags set.
    pub fn empty() -> (r: Self)
        ensures
            r.bits == 0,
    {
        PageTableFlags { bits: 0 }
    }

    /// Flags from a raw bit mask.
    pub fn new(bits: u64) -> (r: Self)
        requires
            bits <= FLAG_MASK,
        ensures
            r.bits == bits,
    {
        PageTableFlags { bits }
    }

    /// The raw bit mask.
    pub fn bits(self) -> (r: u64)
        ensures
            r == self.bits,
    {
        self.bits
    }

    /// Whether every bit of `mask` is set.
    pub fn contains(self, mask: u64) -> (r: bool)
        ensures
            r == (self.bits & mask == mask),
    {
        self.bits & mask == mask
    }

    /// These flags together with every bit of `mask`.
    pub fn insert(self, mask: u64) -> (r: Self)
        ensures
            r.bits == self.bits | mask,
    {
        PageTableFlags { bits: self.bits | mask }
    }

    /// These flags with the bits of `mask` forced to `value`.
    pub fn with(self, mask: u64, value: bool) -> (r: Self)
        ensures
            r.bits == if value {
                self.bits | mask
            } else {
                self.bits & !mask
            },
    {
        if value {
            PageTableFlags { bits: self.bits | mask }
        } else {
            PageTableFlags { bits: self.bits & !mask }
        }
    }
}

/// One slot of one page-table level: a physical page number and flag bits
/// packed into a single 64-bit word. An all-zero entry is unused.
#[derive(Debug, Copy, Clone, PartialEq, Eq, Structural)]
pub struct PageTableEntry(pub u64);

impl PageTableEntry {
    /// The physical page number packed into this entry.
    pub open spec fn spec_ppn(self) -> u64 {
        self.0 >> 10
    }

    /// The flag bits of this entry.
    pub open spec fn spec_flags(self) -> u64 {
        self.0 & FLAG_MASK
    }

    /// Whether this entry is entirely zero.
    pub fn is_unused(self) -> (r: bool)
        ensures
            r == (self.0 == 0),
    {
        self.0 == 0
    }

    /// Zero the entry.
    pub fn set_unused(&mut self)
        ensures
            final(self).0 == 0,
    {
        self.0 = 0;
    }

    /// The flag bits of this entry.
    pub fn flags(self) -> (r: PageTableFlags)
        ensures
            r.bits == self.spec_flags(),
            r.bits <= FLAG_MASK,
    {
        let r = PageTableFlags { bits: self.0 & FLAG_MASK };
        proof {
            let e = self.0;
            assert(e & 0x3FF <= 0x3FF) by (bit_vector);
        }
        r
    }

    /// The physical page number this entry points at.
    pub fn ppn(self) -> (r: u64)
        ensures
            r == self.spec_ppn(),
    {
        self.0 >> 10
    }

    /// The physical address this entry points at.
    pub fn addr(self) -> (r: crate::addr::PhysAddr)
        requires
            self.spec_ppn() < 0x1_0000_0000,
        ensures
            r.0 == self.spec_ppn() * 4096,
    {
        let p = self.0 >> 10;
        proof {
            let e = self.0;
            assert(e >> 10 < 0x1_0000_0000 ==> (e >> 10) << 12 == (e >> 10) * 4096)
                by (bit_vector);
        }
        crate::addr::PhysAddr(p << 12)
    }

    /// The frame this entry points at.
    pub fn frame(self) -> (r: Frame)
        requires
            self.spec_ppn() < 0x1_0000_0000,
        ensures
            r.0.0 == self.spec_ppn() * 4096,
            r.number_spec() == self.spec_ppn(),
    {
        let r = Frame(self.addr());
        proof {
            let p = self.spec_ppn();
            assert(p < 0x1_0000_0000 ==> ((p * 4096) as u64) / 4096 == p) by (bit_vector);
        }
        r
    }

    /// Install a mapping to `frame` with the given flags; the hardware
    /// accessed and dirty bits are forced on, since this kernel takes no
    /// accessed/dirty faults.
    pub fn set(&mut self, frame: Frame, flags: PageTableFlags)
        requires
            frame.number_spec() < 0x1_0000_0000,
            flags.bits <= FLAG_MASK,
        ensures
            final(self).spec_ppn() == frame.number_spec(),
            final(self).spec_flags() == flags.bits | FLAG_ACCESSED | FLAG_DIRTY,
            final(self).0 != 0,
    {
        let n = frame.number();
        let f = flags.bits | FLAG_ACCESSED | FLAG_DIRTY;
        self.0 = (n << 10) | f;
        proof {
            let g = flags.bits;
            assert(n < 0x1_0000_0000 && g <= 0x3FF ==> {
                let w = (n << 10) | (g | 64 | 128);
                &&& w >> 10 == n
                &&& w & 0x3FF == (g | 64 | 128)
                &&& w != 0
            }) by (bit_vector);
        }
    }

    /// Replace only the flag bits, keeping the page number.
    pub fn set_flags(&mut self, flags: PageTableFlags)
        requires
            flags.bits <= FLAG_MASK,
        ensures
            final(self).spec_ppn() == old(self).spec_ppn(),
            final(self).spec_flags() == flags.bits,
    {
        let e = self.0;
        self.0 = (e & !FLAG_MASK) | flags.bits;
        proof {
            let g = flags.bits;
            assert(g <= 0x3FF ==> {
                let w = (e & !0x3FFu64) | g;
                &&& w >> 10 == e >> 10
                &&& w & 0x3FF == g
            }) by (bit_vector);
        }
    }
}

/// One level of the radix tree: a fixed-size array of entries, filling
/// exactly one physical frame.
pub struct PageTableBase {
    pub entries: Vec<PageTableEntry>,
}

impl View for PageTableBase {
    type V = Seq<PageTableEntry>;

    open spec fn view(&self) -> Seq<PageTableEntry> {
        self.entries@
    }
}

impl PageTableBase {
    /// A table level is always exactly one frame of entries.
    pub open spec fn wf(self) -> bool {
        self@.len() == PAGE_ENTRIES
    }

    /// A freshly zeroed table level.
    pub fn new() -> (r: Self)
        ensures
            r.wf(),
            forall|i: int| 0 <= i < PAGE_ENTRIES ==> r@[i].0 == 0,
    {
        PageTableBase { entries: vec![PageTableEntry(0); PAGE_ENTRIES] }
    }

    /// Zero every entry.
    pub fn clear(&mut self)
        requires
            old(self).wf(),
        ensures
            final(self).wf(),
            forall|i: int| 0 <= i < PAGE_ENTRIES ==> final(self)@[i].0 == 0,
    {
        let mut i: usize = 0;
        while i < PAGE_ENTRIES
            invariant
                0 <= i <= PAGE_ENTRIES,
                self@.len() == PAGE_ENTRIES,
                forall|k: int| 0 <= k < i ==> self@[k].0 == 0,
            decreases PAGE_ENTRIES - i,
        {
            self.entries.set(i, PageTableEntry(0));
            i += 1;
        }
    }

    /// Install the classic recursive mapping: entry `k` points the table at
    /// its own frame as a next-level link, and entry `k + 1` maps the frame
    /// as a readable, writable leaf.
    pub fn recursive(&mut self, frame: Frame, k: usize)
        requires
            old(self).wf(),
            k + 1 < PAGE_ENTRIES,
            frame.number_spec() < 0x1_0000_0000,
        ensures
            final(self).wf(),
            final(self)@[k as int].spec_ppn() == frame.number_spec(),
            final(self)@[k as int].spec_flags() == FLAG_VALID | FLAG_ACCESSED | FLAG_DIRTY,
            final(self)@[k + 1].spec_ppn() == frame.number_spec(),
            final(self)@[k + 1].spec_flags() == (FLAG_VALID | FLAG_READABLE | FLAG_WRITABLE)
                | FLAG_ACCESSED | FLAG_DIRTY,
            forall|i: int|
                0 <= i < PAGE_ENTRIES && i != k && i != k + 1 ==> final(self)@[i] == old(
                    self,
                )@[i],
    {
        proof {
            assert(1u64 <= 0x3FF && 1u64 | 2 | 4 <= 0x3FF) by (bit_vector);
        }
        let mut e1 = PageTableEntry(0);
        e1.set(frame, PageTableFlags::new(FLAG_VALID));
        self.put(k, e1);
        let mut e2 = PageTableEntry(0);
        e2.set(frame, PageTableFlags::new(FLAG_VALID | FLAG_READABLE | FLAG_WRITABLE));
        self.put(k + 1, e2);
    }

    /// Read entry `i`.
    pub fn get(&self, i: usize) -> (r: PageTableEntry)
        requires
            self.wf(),
            i < PAGE_ENTRIES,
        ensures
            r == self@[i as int],
    {
        self.entries[i]
    }

    /// Write entry `i`.
    pub fn put(&mut self, i: usize, e: PageTableEntry)
        requires
            old(self).wf(),
            i < PAGE_ENTRIES,
        ensures
            final(self).wf(),
            final(self)@ == old(self)@.update(i as int, e),
    {
        self.entries.set(i, e);
    }
}

/// A virtual-address page handle, page-aligned by construction.
#[derive(Debug, Copy, Clone, PartialEq, Eq, Structural)]
pub struct Page(pub VirtAddr);

impl Page {
    /// The page with the given virtual page number.
    pub fn from_vpn(vpn: u64) -> (r: Self)
        requires
            vpn < 0x10_0000_0000_0000,
            canonical((vpn * PAGE_SIZE) as u64),
        ensures
            r.0.0 == vpn * PAGE_SIZE,
    {
        Page(VirtAddr::new(vpn * PAGE_SIZE))
    }

    /// The page containing the given address.
    pub fn from_addr(va: VirtAddr) -> (r: Self)
        ensures
            r.0 == va,
    {
        Page(va)
    }

    /// The first address of this page.
    pub fn start_address(self) -> (r: VirtAddr)
        ensures
            r.0 == (self.0.0 / PAGE_SIZE) * PAGE_SIZE,
    {
        self.0.page_aligned()
    }
}

/// Walks the pages covering a half-open virtual range, in ascending order.
pub struct PageRange {
    /// Next virtual page number to hand out.
    pub begin: u64,
    /// One past the last virtual page number of the range.
    pub end: u64,
}

impl PageRange {
    /// The page numbers still to be walked all scale back to canonical
    /// addresses on one side of the address hole.
    pub open spec fn wf(self) -> bool {
        &&& self.end <= 0x10_0000_0000_0000
        &&& self.begin < self.end ==> {
            &&& canonical((self.begin * PAGE_SIZE) as u64)
            &&& canonical((((self.end - 1) as u64) * PAGE_SIZE) as u64)
            &&& crate::bits::bit_at((self.begin * PAGE_SIZE) as u64, 38) == crate::bits::bit_at(
                (((self.end - 1) as u64) * PAGE_SIZE) as u64,
                38,
            )
        }
    }

    /// The pages covering `[l, r)`. Both bounds must be canonical and on the
    /// same side of the address hole so every page in between is canonical.
    pub fn new(l: VirtAddr, r: VirtAddr) -> (res: Self)
        requires
            1 <= r.0,
            l.0 <= r.0,
            canonical(l.0),
            canonical((r.0 - 1) as u64),
            crate::bits::bit_at(l.0, 38) == crate::bits::bit_at((r.0 - 1) as u64, 38),
        ensures
            res.begin == l.0 / PAGE_SIZE,
            res.end == ((r.0 - 1) as u64) / PAGE_SIZE + 1,
            res.wf(),
    {
        let res = PageRange { begin: l.as_u64() / PAGE_SIZE, end: (r.as_u64() - 1) / PAGE_SIZE + 1 };
        proof {
            let lo = l.0;
            let hi = (r.0 - 1) as u64;
            lemma_same_page_canonical(lo, (res.begin * 4096) as u64);
            lemma_same_page_canonical(hi, ((hi / 4096) * 4096) as u64);
            assert(res.end - 1 == hi / 4096);
            assert(hi / 4096 * 4096 <= hi < 0x1_0000_0000_0000_0000);
        }
        res
    }

    /// The pages covering the aligned half-open range `[l, r)`. Like `new`,
    /// with bounds already on page boundaries.
    pub fn of_aligned(l: VirtAddr, r: VirtAddr) -> (res: Self)
        requires
            l.0 <= r.0,
            l.0 % PAGE_SIZE == 0,
            r.0 % PAGE_SIZE == 0,
            canonical(l.0),
            canonical(r.0),
            crate::bits::bit_at(l.0, 38) == crate::bits::bit_at(r.0, 38),
        ensures
            res.begin == l.0 / PAGE_SIZE,
            res.end == r.0 / PAGE_SIZE,
            res.wf(),
    {
        let res = PageRange { begin: l.as_u64() / PAGE_SIZE, end: r.as_u64() / PAGE_SIZE };
        proof {
            vstd::arithmetic::div_mod::lemma_fundamental_div_mod(l.0 as int, 4096);
            vstd::arithmetic::div_mod::lemma_fundamental_div_mod(r.0 as int, 4096);
            if res.begin < res.end {
                assert(res.begin * 4096 == l.0);
                assert(res.end * 4096 == r.0);
                assert((res.end - 1) * 4096 == r.0 - 4096);
                assert(l.0 <= r.0 - 4096) by (nonlinear_arith)
                    requires
                        l.0 == res.begin * 4096,
                        r.0 == res.end * 4096,
                        res.begin < res.end,
                ;
                lemma_canonical_between(l.0, r.0, (r.0 - 4096) as u64);
            }
        }
        res
    }

    /// The next page of the range, or `None` when the range is exhausted.
    pub fn next(&mut self) -> (r: Option<Page>)
        requires
            old(self).wf(),
        ensures
            final(self).wf(),
            final(self).end == old(self).end,
            match r {
                Some(page) => {
                    &&& old(self).begin < old(self).end
                    &&& page.0.0 == old(self).begin * PAGE_SIZE
                    &&& final(self).begin == old(self).begin + 1
                },
                None => {
                    &&& old(self).begin >= old(self).end
                    &&& final(self).begin == old(self).begin
                },
            },
    {
        if self.begin < self.end {
            proof {
                let b = self.begin;
                let e1 = (self.end - 1) as u64;
                assert(b * 4096 <= e1 * 4096) by (nonlinear_arith)
                    requires
                        b <= e1,
                ;
                if b < e1 {
                    lemma_canonical_between(
                        (b * 4096) as u64,
                        (e1 * 4096) as u64,
                        (b * 4096) as u64,
                    );
                }
            }
            let page = Page::from_vpn(self.begin);
            self.begin = self.begin + 1;
            proof {
                if self.begin < self.end {
                    let b0 = old(self).begin;
                    let b = self.begin;
                    let e1 = (self.end - 1) as u64;
                    assert(b0 * 4096 <= b * 4096 <= e1 * 4096) by (nonlinear_arith)
                        requires
                            b0 <= b <= e1,
                    ;
                    lemma_canonical_between(
                        (b0 * 4096) as u64,
                        (e1 * 4096) as u64,
                        (b * 4096) as u64,
                    );
                }
            }
            Some(page)
        } else {
            None
        }
    }
}

/// The page-aligned start of a canonical address is canonical and stays on
/// the same side of the address hole: the low twelve bits play no part in
/// sign extension.
pub proof fn lemma_same_page_canonical(x: u64, a: u64)
    requires
        canonical(x),
        a == (x / 4096) * 4096,
    ensures
        canonical(a),
        crate::bits::bit_at(a, 38) == crate::bits::bit_at(x, 38),
{
    assert(x / 4096 * 4096 == x - x % 4096);
    let a2 = (x - x % 4096) as u64;
    assert((a2 == x - x % 4096 && (if (x >> 38) & 1 == 1 {
        (x >> 39) & 0x1FF_FFFF == 0x1FF_FFFF
    } else {
        (x >> 39) & 0x1FF_FFFF == 0
    })) ==> (if (a2 >> 38) & 1 == 1 {
        (a2 >> 39) & 0x1FF_FFFF == 0x1FF_FFFF
    } else {
        (a2 >> 39) & 0x1FF_FFFF == 0
    }) && (((a2 >> 38) & 1 == 1) == ((x >> 38) & 1 == 1))) by (bit_vector);
    crate::bits::lemma_bits_of_shapes(x);
    crate::bits::lemma_bits_of_shapes(a2);
    assert(crate::bits::bit_at(x, 38) == ((x >> 38) & 1 == 1));
    assert(crate::bits::bit_at(a2, 38) == ((a2 >> 38) & 1 == 1));
}

} // verus!

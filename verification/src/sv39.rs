//! The three-level Sv39 page table. Child levels are reached by physical
//! page number through the kernel's linearly-mapped view of physical memory,
//! modelled here as an explicit store from page number to table content; the
//! hardware walks the same frames through the fixed linear offset.
use std::collections::HashMap;
use vstd::prelude::*;

use crate::addr::VirtAddr;
use crate::bits::bits_of;
use crate::frame::Frame;
use crate::frame_alloc::SegmentTreeAllocator;
use crate::page::{Page, PageTableBase, PageTableEntry, PageTableFlags};
use crate::page::{FLAG_EXECUTABLE, FLAG_MASK, FLAG_READABLE, FLAG_VALID, FLAG_WRITABLE};

verus! {

broadcast use vstd::std_specs::hash::group_hash_axioms;

/// Why a mapping operation failed.
#[derive(Debug, Copy, Clone, PartialEq, Eq, Structural)]
pub enum MapError {
    /// An additional frame was needed for an intermediate level, but the
    /// frame allocator was exhausted.
    FrameAllocationFailed,
    /// The page is already mapped to a physical frame; there is no silent
    /// overwrite.
    PageAlreadyMapped,
    /// The page (or an intermediate level above it) is not mapped.
    PageNotMapped,
}

/// A promise to flush the translation cache for one page. It must be
/// consumed — flushed by the hardware glue, or explicitly ignored — before
/// the mapping change is trusted to be visible.
#[must_use]
pub struct Flush(pub Page);

impl Flush {
    /// A flush promise for `page`.
    pub fn new(page: Page) -> (r: Self)
        ensures
            r.0 == page,
    {
        Flush(page)
    }

    /// The page whose translation must be flushed.
    pub fn page(&self) -> (r: Page)
        ensures
            r == self.0,
    {
        self.0
    }

    /// Deliberately skip the flush and consume the promise.
    pub fn ignore(self) {
    }
}

/// A leaf entry paired with its page, for inspecting the mapping's flag
/// bits.
pub struct PageEntry {
    /// The leaf entry's value.
    pub pte: crate::page::PageTableEntry,
    /// The page the entry maps.
    pub page: Page,
}

impl PageEntry {
    /// Whether the VALID bit is set.
    pub fn valid(&self) -> (r: bool)
        ensures
            r == (self.pte.spec_flags() & FLAG_VALID == FLAG_VALID),
    {
        self.pte.flags().contains(FLAG_VALID)
    }

    /// Whether the readable bit is set.
    pub fn readable(&self) -> (r: bool)
        ensures
            r == (self.pte.spec_flags() & FLAG_READABLE == FLAG_READABLE),
    {
        self.pte.flags().contains(FLAG_READABLE)
    }

    /// Whether the writable bit is set.
    pub fn writable(&self) -> (r: bool)
        ensures
            r == (self.pte.spec_flags() & FLAG_WRITABLE == FLAG_WRITABLE),
    {
        self.pte.flags().contains(FLAG_WRITABLE)
    }

    /// Whether the executable bit is set.
    pub fn executable(&self) -> (r: bool)
        ensures
            r == (self.pte.spec_flags() & FLAG_EXECUTABLE == FLAG_EXECUTABLE),
    {
        self.pte.flags().contains(FLAG_EXECUTABLE)
    }

    /// Whether the user-accessible bit is set.
    pub fn user(&self) -> (r: bool)
        ensures
            r == (self.pte.spec_flags() & crate::page::FLAG_USER == crate::page::FLAG_USER),
    {
        self.pte.flags().contains(crate::page::FLAG_USER)
    }

    /// Whether the global bit is set.
    pub fn global(&self) -> (r: bool)
        ensures
            r == (self.pte.spec_flags() & crate::page::FLAG_GLOBAL == crate::page::FLAG_GLOBAL),
    {
        self.pte.flags().contains(crate::page::FLAG_GLOBAL)
    }

    /// Whether the hardware accessed bit is set.
    pub fn accessed(&self) -> (r: bool)
        ensures
            r == (self.pte.spec_flags() & crate::page::FLAG_ACCESSED
                == crate::page::FLAG_ACCESSED),
    {
        self.pte.flags().contains(crate::page::FLAG_ACCESSED)
    }

    /// Whether the hardware dirty bit is set.
    pub fn dirty(&self) -> (r: bool)
        ensures
            r == (self.pte.spec_flags() & crate::page::FLAG_DIRTY == crate::page::FLAG_DIRTY),
    {
        self.pte.flags().contains(crate::page::FLAG_DIRTY)
    }
}

/// The level-3 page-table index of a virtual address: bits 30..39.
pub open spec fn idx3(a: u64) -> int {
    bits_of(a, 30, 39) as int
}

/// The level-2 page-table index of a virtual address: bits 21..30.
pub open spec fn idx2(a: u64) -> int {
    bits_of(a, 21, 30) as int
}

/// The level-1 page-table index of a virtual address: bits 12..21.
pub open spec fn idx1(a: u64) -> int {
    bits_of(a, 12, 21) as int
}

/// A three-level radix tree mapping virtual pages to physical frames. The
/// root and every intermediate level live in frames drawn from the frame
/// allocator; `tables` is the content of each such frame, keyed by its
/// physical page number.
pub struct Sv39PageTable {
    /// Physical page number of the root level.
    pub root_ppn: u64,
    /// Content of every frame that holds a level of this table.
    pub tables: HashMap<u64, PageTableBase>,
}

impl Sv39PageTable {
    /// Entries of the table level stored in frame `ppn`.
    pub open spec fn table(self, ppn: u64) -> Seq<PageTableEntry> {
        self.tables@[ppn]@
    }

    /// Entries of the root level.
    pub open spec fn root(self) -> Seq<PageTableEntry> {
        self.table(self.root_ppn)
    }

    /// Whether the root entry `i3` points at a level-2 table.
    pub open spec fn valid3(self, i3: int) -> bool {
        0 <= i3 < 512 && self.root()[i3].0 != 0
    }

    /// Frame of the level-2 table under root entry `i3`.
    pub open spec fn l2ppn(self, i3: int) -> u64 {
        self.root()[i3].spec_ppn()
    }

    /// Whether the path `i3, i2` reaches a level-1 table.
    pub open spec fn valid2(self, i3: int, i2: int) -> bool {
        self.valid3(i3) && 0 <= i2 < 512 && self.table(self.l2ppn(i3))[i2].0 != 0
    }

    /// Frame of the level-1 table under the path `i3, i2`.
    pub open spec fn l1ppn(self, i3: int, i2: int) -> u64 {
        self.table(self.l2ppn(i3))[i2].spec_ppn()
    }

    /// The leaf entry reached by the index path, or the zero entry where an
    /// intermediate level is missing.
    pub open spec fn leaf(self, i3: int, i2: int, i1: int) -> PageTableEntry {
        if self.valid2(i3, i2) && 0 <= i1 < 512 {
            self.table(self.l1ppn(i3, i2))[i1]
        } else {
            PageTableEntry(0)
        }
    }

    /// Whether the index path carries a live mapping.
    pub open spec fn mapped(self, i3: int, i2: int, i1: int) -> bool {
        self.leaf(i3, i2, i1).0 != 0
    }

    /// The root frame and every intermediate frame are present in the store
    /// with full levels.
    pub open spec fn wf_store(self) -> bool {
        &&& self.tables@.contains_key(self.root_ppn)
        &&& forall|k: u64|
            #[trigger] self.tables@.contains_key(k) ==> self.tables@[k]@.len() == 512
    }

    /// Level-2 tables exist, are distinct from the root, and no two root
    /// entries share one.
    pub open spec fn wf_l3(self) -> bool {
        &&& forall|i3: int|
            #[trigger] self.valid3(i3) ==> self.tables@.contains_key(self.l2ppn(i3))
                && self.l2ppn(i3) != self.root_ppn && self.root()[i3].spec_flags() & (
            FLAG_READABLE | FLAG_WRITABLE | FLAG_EXECUTABLE) == 0
        &&& forall|i3: int, j3: int|
            self.valid3(i3) && self.valid3(j3) && i3 != j3 ==> #[trigger] self.l2ppn(i3)
                != #[trigger] self.l2ppn(j3)
    }

    /// Level-1 tables exist and are distinct from the root, from every
    /// level-2 table, and from each other.
    pub open spec fn wf_l2(self) -> bool {
        &&& forall|i3: int, i2: int|
            #[trigger] self.valid2(i3, i2) ==> self.tables@.contains_key(self.l1ppn(i3, i2))
                && self.l1ppn(i3, i2) != self.root_ppn && self.table(self.l2ppn(i3))[
                i2].spec_flags() & (FLAG_READABLE | FLAG_WRITABLE | FLAG_EXECUTABLE) == 0
        &&& forall|i3: int, i2: int, j3: int|
            self.valid2(i3, i2) && self.valid3(j3) ==> #[trigger] self.l1ppn(i3, i2)
                != #[trigger] self.l2ppn(j3)
        &&& forall|i3: int, i2: int, j3: int, j2: int|
            self.valid2(i3, i2) && self.valid2(j3, j2) && !(i3 == j3 && i2 == j2)
                ==> #[trigger] self.l1ppn(i3, i2) != #[trigger] self.l1ppn(j3, j2)
    }

    /// Every installed leaf was packed from a frame within the implemented
    /// 32-bit physical address width.
    pub open spec fn wf_leaf_ppn(self) -> bool {
        forall|a3: int, a2: int, a1: int|
            #[trigger] self.leaf(a3, a2, a1).spec_ppn() < 0x1_0000_0000
    }

    /// Structural invariant of the whole table.
    pub open spec fn wf(self) -> bool {
        self.wf_store() && self.wf_l3() && self.wf_l2() && self.wf_leaf_ppn()
    }

    /// Every frame holding a level of this table is marked occupied in the
    /// allocator, so a fresh allocation can never alias a live level.
    pub open spec fn owns_tables(self, fa: SegmentTreeAllocator) -> bool {
        forall|k: u64|
            #[trigger] self.tables@.contains_key(k) ==> 0 <= k < fa.cap && !fa.is_free(k as int)
    }

    /// Read entry `i` of the level stored in frame `ppn`.
    fn read_entry(&self, ppn: u64, i: usize) -> (r: PageTableEntry)
        requires
            self.tables@.contains_key(ppn),
            self.tables@[ppn]@.len() == 512,
            i < 512,
        ensures
            r == self.table(ppn)[i as int],
    {
        match self.tables.get(&ppn) {
            Some(t) => t.get(i),
            None => {
                proof {
                    assert(false);
                }
                PageTableEntry(0)
            },
        }
    }

    /// Write entry `i` of the level stored in frame `ppn`.
    fn write_entry(&mut self, ppn: u64, i: usize, e: PageTableEntry)
        requires
            old(self).tables@.contains_key(ppn),
            old(self).tables@[ppn]@.len() == 512,
            i < 512,
        ensures
            final(self).root_ppn == old(self).root_ppn,
            final(self).tables@.dom() == old(self).tables@.dom(),
            forall|k: u64|
                k != ppn && #[trigger] old(self).tables@.contains_key(k) ==> final(self).tables@[k]
                    == old(self).tables@[k],
            final(self).table(ppn) == old(self).table(ppn).update(i as int, e),
    {
        let mut t = match self.tables.remove(&ppn) {
            Some(t) => t,
            None => {
                proof {
                    assert(false);
                }
                PageTableBase::new()
            },
        };
        t.put(i, e);
        self.tables.insert(ppn, t);
        proof {
            assert(self.tables@.dom() =~= old(self).tables@.dom());
        }
    }

    /// Store a freshly zeroed level in frame `ppn`.
    fn insert_table(&mut self, ppn: u64)
        requires
            !old(self).tables@.contains_key(ppn),
        ensures
            final(self).root_ppn == old(self).root_ppn,
            final(self).tables@.dom() == old(self).tables@.dom().insert(ppn),
            forall|k: u64|
                k != ppn && #[trigger] old(self).tables@.contains_key(k) ==> final(self).tables@[k]
                    == old(self).tables@[k],
            final(self).tables@.contains_key(ppn),
            final(self).table(ppn).len() == 512,
            forall|i: int| 0 <= i < 512 ==> final(self).table(ppn)[i].0 == 0,
    {
        let t = PageTableBase::new();
        self.tables.insert(ppn, t);
        proof {
            assert(self.tables@.dom() =~= old(self).tables@.dom().insert(ppn));
        }
    }

    /// A fresh table with an empty, zeroed root level in a newly allocated
    /// frame. Every page is unmapped.
    pub fn new(fa: &mut SegmentTreeAllocator) -> (r: Self)
        requires
            old(fa).wf(),
            old(fa).free_count() >= 1,
        ensures
            final(fa).wf(),
            final(fa).cap == old(fa).cap,
            final(fa).low == old(fa).low,
            final(fa).high == old(fa).high,
            final(fa).len == old(fa).len + 1,
            r.wf(),
            r.owns_tables(*final(fa)),
            forall|a3: int, a2: int, a1: int| !r.mapped(a3, a2, a1),
            r.tables@.dom() == Set::<u64>::empty().insert(r.root_ppn),
            old(fa).is_free(r.root_ppn as int),
            forall|q: int|
                0 <= q < old(fa).cap ==> final(fa).leaf(q) == (q == r.root_ppn || old(fa).leaf(q)),
    {
        let ppn_opt = fa.allocate();
        let ppn = match ppn_opt {
            Some(p) => p,
            None => {
                proof {
                    assert(false);
                }
                0
            },
        };
        let mut tables: HashMap<u64, PageTableBase> = HashMap::new();
        tables.insert(ppn as u64, PageTableBase::new());
        let r = Sv39PageTable { root_ppn: ppn as u64, tables };
        proof {
            assert(r.tables@.dom() =~= Set::<u64>::empty().insert(r.root_ppn));
            assert(forall|i3: int| !r.valid3(i3));
            assert forall|a3: int, a2: int, a1: int| #[trigger] r.leaf(a3, a2, a1).spec_ppn()
                < 0x1_0000_0000 by {
                assert(r.leaf(a3, a2, a1) == PageTableEntry(0));
                assert(0u64 >> 10 == 0) by (bit_vector);
            }
        }
        r
    }
}

impl Sv39PageTable {
    /// Find the level-2 table under root entry `i3`, allocating and
    /// installing a fresh zeroed one when the entry is unused.
    fn ensure_l2(&mut self, fa: &mut SegmentTreeAllocator, i3: usize) -> (r: Result<
        u64,
        MapError,
    >)
        requires
            old(self).wf(),
            old(fa).wf(),
            old(self).owns_tables(*old(fa)),
            old(fa).cap <= 0x10_0000,
            i3 < 512,
        ensures
            final(self).wf(),
            final(fa).wf(),
            final(self).owns_tables(*final(fa)),
            final(fa).cap == old(fa).cap,
            final(fa).low == old(fa).low,
            final(fa).high == old(fa).high,
            final(self).root_ppn == old(self).root_ppn,
            forall|a3: int, a2: int, a1: int|
                #[trigger] final(self).leaf(a3, a2, a1) == old(self).leaf(a3, a2, a1),
            forall|q: int|
                0 <= q < old(fa).cap && old(fa).leaf(q) ==> #[trigger] final(fa).leaf(q),
            forall|k: u64|
                #[trigger] old(self).tables@.contains_key(k) ==> final(self).tables@.contains_key(
                    k,
                ),
            match r {
                Ok(p) => {
                    &&& final(self).valid3(i3 as int)
                    &&& final(self).l2ppn(i3 as int) == p
                    &&& forall|a3: int|
                        #[trigger] final(self).valid3(a3) == (old(self).valid3(a3) || a3 == i3)
                    &&& forall|a3: int, a2: int|
                        #[trigger] final(self).valid2(a3, a2) == old(self).valid2(a3, a2)
                    &&& forall|a3: int, a2: int|
                        old(self).valid2(a3, a2) ==> #[trigger] final(self).l1ppn(a3, a2) == old(
                            self,
                        ).l1ppn(a3, a2)
                    &&& final(fa).len == old(fa).len + (if old(self).valid3(i3 as int) {
                        0int
                    } else {
                        1int
                    })
                    &&& (old(self).valid3(i3 as int) ==> final(fa).occupied@ == old(fa).occupied@)
                },
                Err(e) => {
                    &&& e == MapError::FrameAllocationFailed
                    &&& !old(self).valid3(i3 as int)
                    &&& old(fa).free_count() == 0
                    &&& final(fa).occupied@ == old(fa).occupied@
                    &&& final(fa).len == old(fa).len
                    &&& final(self).tables@ == old(self).tables@
                },
            },
    {
        let root = self.root_ppn;
        let e3 = self.read_entry(root, i3);
        if !e3.is_unused() {
            let p = e3.ppn();
            proof {
                assert(old(self).valid3(i3 as int));
            }
            return Ok(p);
        }
        let p = match fa.allocate() {
            Some(p) => p,
            None => {
                return Err(MapError::FrameAllocationFailed);
            },
        };
        let ghost fa1 = *fa;
        let pk = p as u64;
        proof {
            // the frame was free, so it cannot hold any live level
            assert(!old(self).tables@.contains_key(pk));
        }
        let mut e = PageTableEntry(0);
        e.set(Frame::from_ppn(pk), PageTableFlags::new(FLAG_VALID));
        self.write_entry(root, i3, e);
        self.insert_table(pk);
        proof {
            let s0 = *old(self);
            let s2 = *self;
            let i3i = i3 as int;
            assert((1u64 | 64 | 128) & (2u64 | 4 | 8) == 0) by (bit_vector);
            assert(s2.root() == s0.root().update(i3i, e));
            assert(s2.valid3(i3i) && s2.l2ppn(i3i) == pk);
            assert forall|a3: int| #[trigger] s2.valid3(a3) == (s0.valid3(a3) || a3 == i3i) by {
                if a3 != i3i && 0 <= a3 < 512 {
                    assert(s2.root()[a3] == s0.root()[a3]);
                }
            }
            assert forall|a3: int| s2.valid3(a3) && a3 != i3i implies #[trigger] s2.l2ppn(a3)
                == s0.l2ppn(a3) && s2.table(s2.l2ppn(a3)) == s0.table(s0.l2ppn(a3)) by {
                assert(s2.root()[a3] == s0.root()[a3]);
                assert(s0.tables@.contains_key(s0.l2ppn(a3)));
                assert(s0.l2ppn(a3) != s0.root_ppn);
                assert(s0.l2ppn(a3) != pk);
            }
            assert forall|a3: int, a2: int| #[trigger] s2.valid2(a3, a2) == s0.valid2(a3, a2) by {
                if a3 == i3i {
                    if 0 <= a2 < 512 {
                        assert(s2.table(pk)[a2].0 == 0);
                    }
                } else if s0.valid3(a3) {
                    assert(s2.table(s2.l2ppn(a3)) == s0.table(s0.l2ppn(a3)));
                }
            }
            assert forall|a3: int, a2: int| s0.valid2(a3, a2) implies #[trigger] s2.l1ppn(a3, a2)
                == s0.l1ppn(a3, a2) && s2.table(s2.l1ppn(a3, a2)) == s0.table(s0.l1ppn(a3, a2)) by {
                assert(a3 != i3i);
                assert(s2.table(s2.l2ppn(a3)) == s0.table(s0.l2ppn(a3)));
                assert(s0.tables@.contains_key(s0.l1ppn(a3, a2)));
                assert(s0.l1ppn(a3, a2) != s0.root_ppn);
                assert(s0.l1ppn(a3, a2) != pk);
            }
            assert forall|a3: int, a2: int, a1: int| #[trigger] s2.leaf(a3, a2, a1) == s0.leaf(
                a3,
                a2,
                a1,
            ) by {
                if s0.valid2(a3, a2) {
                    assert(s2.valid2(a3, a2));
                    assert(s2.table(s2.l1ppn(a3, a2)) == s0.table(s0.l1ppn(a3, a2)));
                } else {
                    assert(!s2.valid2(a3, a2));
                }
            }
            assert(s2.wf_store());
            assert(s2.wf_l3());
            assert(s2.wf_l2()) by {
                assert forall|a3: int, a2: int| #[trigger] s2.valid2(a3, a2) implies
                    s2.tables@.contains_key(s2.l1ppn(a3, a2)) && s2.l1ppn(a3, a2) != s2.root_ppn
                    && s2.table(s2.l2ppn(a3))[a2].spec_flags() & (FLAG_READABLE | FLAG_WRITABLE
                    | FLAG_EXECUTABLE) == 0 by {
                    assert(s0.valid2(a3, a2));
                    assert(a3 != i3i);
                    assert(s2.l1ppn(a3, a2) == s0.l1ppn(a3, a2));
                    assert(s2.table(s2.l2ppn(a3)) == s0.table(s0.l2ppn(a3)));
                }
                assert forall|a3: int, a2: int, j3: int|
                    s2.valid2(a3, a2) && s2.valid3(j3) implies #[trigger] s2.l1ppn(a3, a2)
                    != #[trigger] s2.l2ppn(j3) by {
                    assert(s0.valid2(a3, a2));
                    assert(s2.l1ppn(a3, a2) == s0.l1ppn(a3, a2));
                    if j3 == i3i {
                        assert(s0.tables@.contains_key(s0.l1ppn(a3, a2)));
                    } else {
                        assert(s2.l2ppn(j3) == s0.l2ppn(j3));
                    }
                }
                assert forall|a3: int, a2: int, j3: int, j2: int|
                    s2.valid2(a3, a2) && s2.valid2(j3, j2) && !(a3 == j3 && a2 == j2)
                    implies #[trigger] s2.l1ppn(a3, a2) != #[trigger] s2.l1ppn(j3, j2) by {
                    assert(s0.valid2(a3, a2) && s0.valid2(j3, j2));
                    assert(s2.l1ppn(a3, a2) == s0.l1ppn(a3, a2));
                    assert(s2.l1ppn(j3, j2) == s0.l1ppn(j3, j2));
                }
            }
            assert forall|a3: int, a2: int, a1: int| #[trigger] s2.leaf(a3, a2, a1).spec_ppn()
                < 0x1_0000_0000 by {
                assert(s2.leaf(a3, a2, a1) == s0.leaf(a3, a2, a1));
            }
            assert(s2.owns_tables(*fa)) by {
                assert forall|k: u64| #[trigger] s2.tables@.contains_key(k) implies 0 <= k < fa.cap
                    && !fa.is_free(k as int) by {
                    if k == pk {
                        assert(fa.leaf(p as int));
                    } else {
                        assert(s0.tables@.contains_key(k));
                        assert(!fa1.is_free(k as int));
                    }
                }
            }
        }
        Ok(pk)
    }

    /// Find the level-1 table under the path `i3, i2`, allocating and
    /// installing a fresh zeroed one when the level-2 entry is unused.
    fn ensure_l1(&mut self, fa: &mut SegmentTreeAllocator, i3: usize, i2: usize) -> (r: Result<
        u64,
        MapError,
    >)
        requires
            old(self).wf(),
            old(fa).wf(),
            old(self).owns_tables(*old(fa)),
            old(fa).cap <= 0x10_0000,
            i3 < 512,
            i2 < 512,
            old(self).valid3(i3 as int),
        ensures
            final(self).wf(),
            final(fa).wf(),
            final(self).owns_tables(*final(fa)),
            final(fa).cap == old(fa).cap,
            final(fa).low == old(fa).low,
            final(fa).high == old(fa).high,
            final(self).root_ppn == old(self).root_ppn,
            forall|a3: int, a2: int, a1: int|
                #[trigger] final(self).leaf(a3, a2, a1) == old(self).leaf(a3, a2, a1),
            forall|q: int|
                0 <= q < old(fa).cap && old(fa).leaf(q) ==> #[trigger] final(fa).leaf(q),
            forall|k: u64|
                #[trigger] old(self).tables@.contains_key(k) ==> final(self).tables@.contains_key(
                    k,
                ),
            forall|a3: int| #[trigger] final(self).valid3(a3) == old(self).valid3(a3),
            match r {
                Ok(p) => {
                    &&& final(self).valid2(i3 as int, i2 as int)
                    &&& final(self).l1ppn(i3 as int, i2 as int) == p
                    &&& forall|a3: int, a2: int|
                        #[trigger] final(self).valid2(a3, a2) == (old(self).valid2(a3, a2) || (a3
                            == i3 && a2 == i2))
                    &&& final(fa).len == old(fa).len + (if old(self).valid2(i3 as int, i2 as int) {
                        0int
                    } else {
                        1int
                    })
                    &&& (old(self).valid2(i3 as int, i2 as int) ==> final(fa).occupied@ == old(
                        fa,
                    ).occupied@)
                },
                Err(e) => {
                    &&& e == MapError::FrameAllocationFailed
                    &&& !old(self).valid2(i3 as int, i2 as int)
                    &&& old(fa).free_count() == 0
                    &&& final(fa).occupied@ == old(fa).occupied@
                    &&& final(fa).len == old(fa).len
                    &&& final(self).tables@ == old(self).tables@
                },
            },
    {
        let ghost s0 = *old(self);
        let ghost i3i = i3 as int;
        let ghost i2i = i2 as int;
        let l2p = self.read_entry(self.root_ppn, i3).ppn();
        proof {
            assert(l2p == s0.l2ppn(i3i));
            assert(s0.tables@.contains_key(l2p));
        }
        let e2 = self.read_entry(l2p, i2);
        if !e2.is_unused() {
            let p = e2.ppn();
            proof {
                assert(s0.valid2(i3i, i2i));
            }
            return Ok(p);
        }
        let p = match fa.allocate() {
            Some(p) => p,
            None => {
                return Err(MapError::FrameAllocationFailed);
            },
        };
        let ghost fa1 = *fa;
        let pk = p as u64;
        proof {
            assert(!old(self).tables@.contains_key(pk));
        }
        let mut e = PageTableEntry(0);
        e.set(Frame::from_ppn(pk), PageTableFlags::new(FLAG_VALID));
        self.write_entry(l2p, i2, e);
        self.insert_table(pk);
        proof {
            let s2 = *self;
            assert((1u64 | 64 | 128) & (2u64 | 4 | 8) == 0) by (bit_vector);
            assert(l2p != s0.root_ppn);
            assert(s2.root() == s0.root());
            assert(s2.table(l2p) == s0.table(l2p).update(i2i, e));
            assert forall|a3: int| #[trigger] s2.valid3(a3) == s0.valid3(a3) by {}
            assert forall|a3: int| s2.valid3(a3) implies #[trigger] s2.l2ppn(a3) == s0.l2ppn(a3) by {}
            assert forall|a3: int| s0.valid3(a3) && s0.l2ppn(a3) != l2p implies s2.table(
                #[trigger] s0.l2ppn(a3)) == s0.table(s0.l2ppn(a3)) by {
                assert(s0.tables@.contains_key(s0.l2ppn(a3)));
                assert(s0.l2ppn(a3) != pk);
            }
            assert forall|a3: int| s0.valid3(a3) && s0.l2ppn(a3) == l2p implies a3 == i3i by {
                if a3 != i3i {
                    assert(s0.l2ppn(a3) != s0.l2ppn(i3i));
                }
            }
            assert(s2.valid2(i3i, i2i) && s2.l1ppn(i3i, i2i) == pk);
            assert forall|a3: int, a2: int| #[trigger] s2.valid2(a3, a2) == (s0.valid2(a3, a2) || (
                a3 == i3i && a2 == i2i)) by {
                if s0.valid3(a3) {
                    if s0.l2ppn(a3) == l2p {
                        assert(a3 == i3i);
                        if 0 <= a2 < 512 && a2 != i2i {
                            assert(s2.table(l2p)[a2] == s0.table(l2p)[a2]);
                        }
                    } else {
                        assert(s2.table(s0.l2ppn(a3)) == s0.table(s0.l2ppn(a3)));
                    }
                }
            }
            assert forall|a3: int, a2: int| s0.valid2(a3, a2) implies #[trigger] s2.l1ppn(a3, a2)
                == s0.l1ppn(a3, a2) && s2.table(s2.l1ppn(a3, a2)) == s0.table(s0.l1ppn(a3, a2)) by {
                assert(!(a3 == i3i && a2 == i2i));
                if s0.l2ppn(a3) == l2p {
                    assert(a3 == i3i);
                    assert(s2.table(l2p)[a2] == s0.table(l2p)[a2]);
                } else {
                    assert(s2.table(s0.l2ppn(a3)) == s0.table(s0.l2ppn(a3)));
                }
                assert(s0.tables@.contains_key(s0.l1ppn(a3, a2)));
                assert(s0.l1ppn(a3, a2) != pk);
                assert(s0.l1ppn(a3, a2) != l2p) by {
                    assert(s0.valid3(i3i));
                }
            }
            assert forall|a3: int, a2: int, a1: int| #[trigger] s2.leaf(a3, a2, a1) == s0.leaf(
                a3,
                a2,
                a1,
            ) by {
                if s0.valid2(a3, a2) {
                    assert(s2.valid2(a3, a2));
                    assert(s2.table(s2.l1ppn(a3, a2)) == s0.table(s0.l1ppn(a3, a2)));
                } else if a3 == i3i && a2 == i2i {
                    if 0 <= a1 < 512 {
                        assert(s2.leaf(a3, a2, a1) == s2.table(pk)[a1]);
                        assert(s2.table(pk)[a1].0 == 0);
                    }
                } else {
                    assert(!s2.valid2(a3, a2));
                }
            }
            assert(s2.wf_store());
            assert(s2.wf_l3()) by {
                assert forall|a3: int| #[trigger] s2.valid3(a3) implies s2.tables@.contains_key(
                    s2.l2ppn(a3)) && s2.l2ppn(a3) != s2.root_ppn && s2.root()[a3].spec_flags() & (
                    FLAG_READABLE | FLAG_WRITABLE | FLAG_EXECUTABLE) == 0 by {
                    assert(s0.valid3(a3));
                    assert(s2.l2ppn(a3) == s0.l2ppn(a3));
                }
            }
            assert(s2.wf_l2()) by {
                assert forall|a3: int, a2: int| #[trigger] s2.valid2(a3, a2) implies
                    s2.tables@.contains_key(s2.l1ppn(a3, a2)) && s2.l1ppn(a3, a2) != s2.root_ppn
                    && s2.table(s2.l2ppn(a3))[a2].spec_flags() & (FLAG_READABLE | FLAG_WRITABLE
                    | FLAG_EXECUTABLE) == 0 by {
                    if a3 == i3i && a2 == i2i {
                        assert(s2.l1ppn(a3, a2) == pk);
                        assert(s2.table(s2.l2ppn(a3))[a2] == e);
                    } else {
                        assert(s0.valid2(a3, a2));
                        assert(s2.l1ppn(a3, a2) == s0.l1ppn(a3, a2));
                        if s0.l2ppn(a3) == l2p {
                            assert(a3 == i3i);
                            assert(s2.table(l2p)[a2] == s0.table(l2p)[a2]);
                        } else {
                            assert(s2.table(s0.l2ppn(a3)) == s0.table(s0.l2ppn(a3)));
                        }
                    }
                }
                assert forall|a3: int, a2: int, j3: int|
                    s2.valid2(a3, a2) && s2.valid3(j3) implies #[trigger] s2.l1ppn(a3, a2)
                    != #[trigger] s2.l2ppn(j3) by {
                    assert(s2.l2ppn(j3) == s0.l2ppn(j3));
                    assert(s0.tables@.contains_key(s0.l2ppn(j3)));
                    if a3 == i3i && a2 == i2i {
                        assert(s2.l1ppn(a3, a2) == pk);
                    } else {
                        assert(s0.valid2(a3, a2));
                        assert(s2.l1ppn(a3, a2) == s0.l1ppn(a3, a2));
                    }
                }
                assert forall|a3: int, a2: int, j3: int, j2: int|
                    s2.valid2(a3, a2) && s2.valid2(j3, j2) && !(a3 == j3 && a2 == j2)
                    implies #[trigger] s2.l1ppn(a3, a2) != #[trigger] s2.l1ppn(j3, j2) by {
                    if a3 == i3i && a2 == i2i {
                        assert(s0.valid2(j3, j2));
                        assert(s2.l1ppn(j3, j2) == s0.l1ppn(j3, j2));
                        assert(s0.tables@.contains_key(s0.l1ppn(j3, j2)));
                    } else if j3 == i3i && j2 == i2i {
                        assert(s0.valid2(a3, a2));
                        assert(s2.l1ppn(a3, a2) == s0.l1ppn(a3, a2));
                        assert(s0.tables@.contains_key(s0.l1ppn(a3, a2)));
                    } else {
                        assert(s0.valid2(a3, a2) && s0.valid2(j3, j2));
                        assert(s2.l1ppn(a3, a2) == s0.l1ppn(a3, a2));
                        assert(s2.l1ppn(j3, j2) == s0.l1ppn(j3, j2));
                    }
                }
            }
            assert forall|a3: int, a2: int, a1: int| #[trigger] s2.leaf(a3, a2, a1).spec_ppn()
                < 0x1_0000_0000 by {
                assert(s2.leaf(a3, a2, a1) == s0.leaf(a3, a2, a1));
            }
            assert(s2.owns_tables(*fa)) by {
                assert forall|k: u64| #[trigger] s2.tables@.contains_key(k) implies 0 <= k < fa.cap
                    && !fa.is_free(k as int) by {
                    if k == pk {
                        assert(fa.leaf(p as int));
                    } else {
                        assert(s0.tables@.contains_key(k));
                        assert(!fa1.is_free(k as int));
                    }
                }
            }
        }
        Ok(pk)
    }

    /// How many fresh frames mapping through the path `i3, i2` would take:
    /// one per missing intermediate level.
    pub open spec fn tables_needed(self, i3: int, i2: int) -> int {
        if self.valid2(i3, i2) {
            0
        } else if self.valid3(i3) {
            1
        } else {
            2
        }
    }

    /// Descend toward the level-1 table of `vaddr`, allocating and
    /// zero-initializing a frame for any missing intermediate level; returns
    /// the level-1 table's frame, or fails when the allocator runs dry.
    fn walk_or_insert(&mut self, fa: &mut SegmentTreeAllocator, vaddr: VirtAddr) -> (r: Result<
        u64,
        MapError,
    >)
        requires
            old(self).wf(),
            old(fa).wf(),
            old(self).owns_tables(*old(fa)),
            old(fa).cap <= 0x10_0000,
        ensures
            final(self).wf(),
            final(fa).wf(),
            final(self).owns_tables(*final(fa)),
            final(fa).cap == old(fa).cap,
            final(fa).low == old(fa).low,
            final(fa).high == old(fa).high,
            final(self).root_ppn == old(self).root_ppn,
            forall|a3: int, a2: int, a1: int|
                #[trigger] final(self).leaf(a3, a2, a1) == old(self).leaf(a3, a2, a1),
            forall|q: int|
                0 <= q < old(fa).cap && old(fa).leaf(q) ==> #[trigger] final(fa).leaf(q),
            forall|k: u64|
                #[trigger] old(self).tables@.contains_key(k) ==> final(self).tables@.contains_key(
                    k,
                ),
            match r {
                Ok(p) => {
                    &&& old(fa).free_count() >= old(self).tables_needed(
                        idx3(vaddr.0),
                        idx2(vaddr.0),
                    )
                    &&& final(self).valid2(idx3(vaddr.0), idx2(vaddr.0))
                    &&& final(self).l1ppn(idx3(vaddr.0), idx2(vaddr.0)) == p
                    &&& forall|a3: int, a2: int|
                        #[trigger] final(self).valid2(a3, a2) == (old(self).valid2(a3, a2) || (a3
                            == idx3(vaddr.0) && a2 == idx2(vaddr.0)))
                    &&& forall|a3: int|
                        #[trigger] final(self).valid3(a3) == (old(self).valid3(a3) || a3 == idx3(
                            vaddr.0,
                        ))
                    &&& final(fa).len == old(fa).len + old(self).tables_needed(
                        idx3(vaddr.0),
                        idx2(vaddr.0),
                    )
                },
                Err(e) => {
                    &&& e == MapError::FrameAllocationFailed
                    &&& old(fa).free_count() < old(self).tables_needed(
                        idx3(vaddr.0),
                        idx2(vaddr.0),
                    )
                    &&& final(fa).free_count() == 0
                },
            },
    {
        let i3 = vaddr.p3_index();
        let i2 = vaddr.p2_index();
        let ghost s0 = *old(self);
        let ghost fa0 = *old(fa);
        let l2p = match self.ensure_l2(fa, i3) {
            Ok(p) => p,
            Err(e) => {
                return Err(e);
            },
        };
        let ghost s1 = *self;
        let ghost fam = *fa;
        let r1 = self.ensure_l1(fa, i3, i2);
        proof {
            assert(s1.valid2(i3 as int, i2 as int) == s0.valid2(i3 as int, i2 as int));
            if s0.valid2(i3 as int, i2 as int) {
                assert(s0.valid3(i3 as int));
            }
            assert(fam.free_count() == fa0.free_count() - (if s0.valid3(i3 as int) {
                0int
            } else {
                1int
            }));
        }
        proof {
            let i3i = idx3(vaddr.0);
            let i2i = idx2(vaddr.0);
            let needed = s0.tables_needed(i3i, i2i);
            match r1 {
                Ok(_) => {
                    if !s0.valid3(i3i) {
                        assert(fam.len == fa0.len + 1);
                        assert(fam.len <= fam.high - fam.low);
                        assert(fa0.free_count() >= 1);
                        if !s1.valid2(i3i, i2i) {
                            assert(fa.len == fam.len + 1);
                            assert(fa.len <= fa.high - fa.low);
                            assert(fam.free_count() >= 1);
                            assert(fa0.free_count() >= 2);
                        }
                    } else {
                        if !s0.valid2(i3i, i2i) {
                            assert(fa.len == fam.len + 1);
                            assert(fa.len <= fa.high - fa.low);
                            assert(fam.free_count() >= 1);
                        }
                    }
                    assert forall|a3: int, a2: int| #[trigger] self.valid2(a3, a2) == (s0.valid2(
                        a3,
                        a2,
                    ) || (a3 == i3i && a2 == i2i)) by {
                        assert(self.valid2(a3, a2) == (s1.valid2(a3, a2) || (a3 == i3i && a2
                            == i2i)));
                        assert(s1.valid2(a3, a2) == s0.valid2(a3, a2));
                    }
                },
                Err(_) => {
                    assert(!s1.valid2(i3i, i2i));
                    assert(s0.valid2(i3i, i2i) == s1.valid2(i3i, i2i));
                    assert(fam.free_count() == 0);
                    if s0.valid3(i3i) {
                        assert(fa0.free_count() == 0);
                        assert(needed >= 1);
                    } else {
                        assert(fa0.free_count() == 1);
                        assert(needed == 2);
                    }
                },
            }
        }
        match r1 {
            Ok(p) => Ok(p),
            Err(e) => Err(e),
        }
    }

    /// Read the leaf entry under the index path, failing where an
    /// intermediate level is missing.
    fn read_leaf(&self, i3: usize, i2: usize, i1: usize) -> (r: Result<PageTableEntry, MapError>)
        requires
            self.wf(),
            i3 < 512,
            i2 < 512,
            i1 < 512,
        ensures
            match r {
                Ok(e) => self.valid2(i3 as int, i2 as int) && e == self.leaf(
                    i3 as int,
                    i2 as int,
                    i1 as int,
                ),
                Err(e) => e == MapError::PageNotMapped && !self.valid2(i3 as int, i2 as int),
            },
    {
        let e3 = self.read_entry(self.root_ppn, i3);
        if e3.is_unused() {
            return Err(MapError::PageNotMapped);
        }
        proof {
            assert(self.valid3(i3 as int));
            assert(self.tables@.contains_key(self.l2ppn(i3 as int)));
        }
        let e2 = self.read_entry(e3.ppn(), i2);
        if e2.is_unused() {
            return Err(MapError::PageNotMapped);
        }
        proof {
            assert(self.valid2(i3 as int, i2 as int));
            assert(self.tables@.contains_key(self.l1ppn(i3 as int, i2 as int)));
        }
        Ok(self.read_entry(e2.ppn(), i1))
    }

    /// Overwrite the leaf entry under a path whose levels all exist. Exactly
    /// one leaf changes; the tree's shape does not.
    fn write_leaf(&mut self, i3: usize, i2: usize, i1: usize, e: PageTableEntry)
        requires
            old(self).wf(),
            old(self).valid2(i3 as int, i2 as int),
            i1 < 512,
            e.spec_ppn() < 0x1_0000_0000,
        ensures
            final(self).wf(),
            final(self).root_ppn == old(self).root_ppn,
            final(self).tables@.dom() == old(self).tables@.dom(),
            forall|a3: int| #[trigger] final(self).valid3(a3) == old(self).valid3(a3),
            forall|a3: int, a2: int|
                #[trigger] final(self).valid2(a3, a2) == old(self).valid2(a3, a2),
            forall|a3: int, a2: int, a1: int|
                #[trigger] final(self).leaf(a3, a2, a1) == if a3 == i3 && a2 == i2 && a1 == i1 {
                    e
                } else {
                    old(self).leaf(a3, a2, a1)
                },
    {
        let ghost s0 = *old(self);
        let ghost i3i = i3 as int;
        let ghost i2i = i2 as int;
        let ghost i1i = i1 as int;
        let l2p = self.read_entry(self.root_ppn, i3).ppn();
        let l1p = self.read_entry(l2p, i2).ppn();
        proof {
            assert(l2p == s0.l2ppn(i3i));
            assert(l1p == s0.l1ppn(i3i, i2i));
            assert(s0.tables@.contains_key(l1p));
        }
        self.write_entry(l1p, i1, e);
        proof {
            let s2 = *self;
            assert(l1p != s0.root_ppn);
            assert(s2.root() == s0.root());
            assert forall|a3: int| s0.valid3(a3) implies s2.table(#[trigger] s0.l2ppn(a3))
                == s0.table(s0.l2ppn(a3)) by {
                assert(s0.l1ppn(i3i, i2i) != s0.l2ppn(a3));
                assert(s0.tables@.contains_key(s0.l2ppn(a3)));
            }
            assert forall|a3: int, a2: int| #[trigger] s2.valid2(a3, a2) == s0.valid2(a3, a2) by {
                if s0.valid3(a3) {
                    assert(s2.table(s0.l2ppn(a3)) == s0.table(s0.l2ppn(a3)));
                }
            }
            assert forall|a3: int, a2: int| s0.valid2(a3, a2) implies #[trigger] s2.l1ppn(a3, a2)
                == s0.l1ppn(a3, a2) by {
                assert(s2.table(s0.l2ppn(a3)) == s0.table(s0.l2ppn(a3)));
            }
            assert forall|a3: int, a2: int, a1: int| #[trigger] s2.leaf(a3, a2, a1) == (if a3 == i3i
                && a2 == i2i && a1 == i1i {
                e
            } else {
                s0.leaf(a3, a2, a1)
            }) by {
                if s0.valid2(a3, a2) && 0 <= a1 < 512 {
                    assert(s2.l1ppn(a3, a2) == s0.l1ppn(a3, a2));
                    if s0.l1ppn(a3, a2) == l1p {
                        assert(a3 == i3i && a2 == i2i);
                        assert(s2.table(l1p) == s0.table(l1p).update(i1i, e));
                    } else {
                        assert(s0.tables@.contains_key(s0.l1ppn(a3, a2)));
                        assert(s2.table(s0.l1ppn(a3, a2)) == s0.table(s0.l1ppn(a3, a2)));
                    }
                }
            }
            assert(s2.wf_store());
            assert(s2.wf_l3()) by {
                assert forall|a3: int| #[trigger] s2.valid3(a3) implies s2.tables@.contains_key(
                    s2.l2ppn(a3)) && s2.l2ppn(a3) != s2.root_ppn && s2.root()[a3].spec_flags() & (
                    FLAG_READABLE | FLAG_WRITABLE | FLAG_EXECUTABLE) == 0 by {
                    assert(s0.valid3(a3));
                    assert(s2.l2ppn(a3) == s0.l2ppn(a3));
                    assert(s0.tables@.contains_key(s0.l2ppn(a3)));
                }
                assert forall|a3: int, j3: int|
                    s2.valid3(a3) && s2.valid3(j3) && a3 != j3 implies #[trigger] s2.l2ppn(a3)
                    != #[trigger] s2.l2ppn(j3) by {
                    assert(s0.valid3(a3) && s0.valid3(j3));
                    assert(s2.l2ppn(a3) == s0.l2ppn(a3));
                    assert(s2.l2ppn(j3) == s0.l2ppn(j3));
                }
            }
            assert(s2.wf_l2()) by {
                assert forall|a3: int, a2: int| #[trigger] s2.valid2(a3, a2) implies
                    s2.tables@.contains_key(s2.l1ppn(a3, a2)) && s2.l1ppn(a3, a2) != s2.root_ppn
                    && s2.table(s2.l2ppn(a3))[a2].spec_flags() & (FLAG_READABLE | FLAG_WRITABLE
                    | FLAG_EXECUTABLE) == 0 by {
                    assert(s0.valid2(a3, a2));
                    assert(s2.l1ppn(a3, a2) == s0.l1ppn(a3, a2));
                    assert(s0.tables@.contains_key(s0.l1ppn(a3, a2)));
                    assert(s2.table(s2.l2ppn(a3)) == s0.table(s0.l2ppn(a3)));
                }
                assert forall|a3: int, a2: int, j3: int|
                    s2.valid2(a3, a2) && s2.valid3(j3) implies #[trigger] s2.l1ppn(a3, a2)
                    != #[trigger] s2.l2ppn(j3) by {
                    assert(s0.valid2(a3, a2) && s0.valid3(j3));
                    assert(s2.l1ppn(a3, a2) == s0.l1ppn(a3, a2));
                }
                assert forall|a3: int, a2: int, j3: int, j2: int|
                    s2.valid2(a3, a2) && s2.valid2(j3, j2) && !(a3 == j3 && a2 == j2)
                    implies #[trigger] s2.l1ppn(a3, a2) != #[trigger] s2.l1ppn(j3, j2) by {
                    assert(s0.valid2(a3, a2) && s0.valid2(j3, j2));
                    assert(s2.l1ppn(a3, a2) == s0.l1ppn(a3, a2));
                    assert(s2.l1ppn(j3, j2) == s0.l1ppn(j3, j2));
                }
            }
            assert forall|a3: int, a2: int, a1: int| #[trigger] s2.leaf(a3, a2, a1).spec_ppn()
                < 0x1_0000_0000 by {
                if a3 == i3i && a2 == i2i && a1 == i1i {
                    assert(s2.leaf(a3, a2, a1) == e);
                } else {
                    assert(s2.leaf(a3, a2, a1) == s0.leaf(a3, a2, a1));
                }
            }
        }
    }

    /// Install a leaf mapping from `page` to `frame`, allocating missing
    /// intermediate levels on demand. Fails with `PageAlreadyMapped` when
    /// the page already carries a mapping (no silent overwrite), and with
    /// `FrameAllocationFailed` when an intermediate level cannot be
    /// allocated; a page whose levels exist maps without touching the
    /// allocator.
    pub fn map(&mut self, fa: &mut SegmentTreeAllocator, page: Page, frame: Frame,
        flags: PageTableFlags) -> (r: Result<Flush, MapError>)
        requires
            old(self).wf(),
            old(fa).wf(),
            old(self).owns_tables(*old(fa)),
            old(fa).cap <= 0x10_0000,
            frame.number_spec() < 0x1_0000_0000,
            flags.bits <= FLAG_MASK,
        ensures
            final(self).wf(),
            final(fa).wf(),
            final(self).owns_tables(*final(fa)),
            final(fa).cap == old(fa).cap,
            final(fa).low == old(fa).low,
            final(fa).high == old(fa).high,
            final(self).root_ppn == old(self).root_ppn,
            forall|q: int|
                0 <= q < old(fa).cap && old(fa).leaf(q) ==> #[trigger] final(fa).leaf(q),
            match r {
                Ok(flush) => {
                    &&& flush.0 == page
                    &&& !old(self).mapped(idx3(page.0.0), idx2(page.0.0), idx1(page.0.0))
                    &&& old(fa).free_count() >= old(self).tables_needed(
                        idx3(page.0.0),
                        idx2(page.0.0),
                    )
                    &&& final(self).mapped(idx3(page.0.0), idx2(page.0.0), idx1(page.0.0))
                    &&& final(self).leaf(
                        idx3(page.0.0),
                        idx2(page.0.0),
                        idx1(page.0.0),
                    ).spec_ppn() == frame.number_spec()
                    &&& final(self).leaf(idx3(page.0.0), idx2(page.0.0), idx1(page.0.0)).spec_flags()
                        == flags.bits | crate::page::FLAG_ACCESSED | crate::page::FLAG_DIRTY
                    &&& forall|a3: int, a2: int, a1: int|
                        !(a3 == idx3(page.0.0) && a2 == idx2(page.0.0) && a1 == idx1(page.0.0))
                            ==> #[trigger] final(self).leaf(a3, a2, a1) == old(self).leaf(
                            a3,
                            a2,
                            a1,
                        )
                    &&& forall|a3: int, a2: int|
                        #[trigger] final(self).valid2(a3, a2) == (old(self).valid2(a3, a2) || (a3
                            == idx3(page.0.0) && a2 == idx2(page.0.0)))
                    &&& forall|a3: int|
                        #[trigger] final(self).valid3(a3) == (old(self).valid3(a3) || a3 == idx3(
                            page.0.0,
                        ))
                    &&& final(fa).len == old(fa).len + old(self).tables_needed(
                        idx3(page.0.0),
                        idx2(page.0.0),
                    )
                },
                Err(e) => {
                    &&& forall|a3: int, a2: int, a1: int|
                        #[trigger] final(self).leaf(a3, a2, a1) == old(self).leaf(a3, a2, a1)
                    &&& (e == MapError::PageAlreadyMapped <==> old(self).mapped(
                        idx3(page.0.0),
                        idx2(page.0.0),
                        idx1(page.0.0),
                    ))
                    &&& (e == MapError::PageAlreadyMapped ==> final(fa).len == old(fa).len)
                    &&& (e == MapError::FrameAllocationFailed ==> old(fa).free_count() < old(
                        self,
                    ).tables_needed(idx3(page.0.0), idx2(page.0.0)) && final(fa).free_count()
                        == 0)
                    &&& e != MapError::PageNotMapped
                },
            },
    {
        let ghost s0 = *old(self);
        let i1 = page.0.p1_index();
        let l1p = match self.walk_or_insert(fa, page.0) {
            Ok(p) => p,
            Err(e) => {
                return Err(e);
            },
        };
        let i3 = page.0.p3_index();
        let i2 = page.0.p2_index();
        let e = self.read_entry(l1p, i1);
        if !e.is_unused() {
            proof {
                assert(self.leaf(idx3(page.0.0), idx2(page.0.0), idx1(page.0.0)) == e);
                assert(s0.mapped(idx3(page.0.0), idx2(page.0.0), idx1(page.0.0)));
                assert(s0.valid2(idx3(page.0.0), idx2(page.0.0)));
            }
            return Err(MapError::PageAlreadyMapped);
        }
        proof {
            assert(self.leaf(idx3(page.0.0), idx2(page.0.0), idx1(page.0.0)) == e);
            assert(!s0.mapped(idx3(page.0.0), idx2(page.0.0), idx1(page.0.0)));
        }
        let mut ne = PageTableEntry(0);
        ne.set(frame, flags);
        self.write_leaf(i3, i2, i1, ne);
        Ok(Flush::new(page))
    }

    /// Remove the leaf mapping of `page` and hand back the frame that was
    /// mapped, for the caller to dispose of. Fails with `PageNotMapped` when
    /// an intermediate level or the leaf itself is absent; no table frame is
    /// freed.
    pub fn unmap(&mut self, page: Page) -> (r: Result<(Frame, Flush), MapError>)
        requires
            old(self).wf(),
        ensures
            final(self).wf(),
            final(self).root_ppn == old(self).root_ppn,
            final(self).tables@.dom() == old(self).tables@.dom(),
            forall|a3: int| #[trigger] final(self).valid3(a3) == old(self).valid3(a3),
            forall|a3: int, a2: int|
                #[trigger] final(self).valid2(a3, a2) == old(self).valid2(a3, a2),
            match r {
                Ok((frame, flush)) => {
                    &&& flush.0 == page
                    &&& old(self).mapped(idx3(page.0.0), idx2(page.0.0), idx1(page.0.0))
                    &&& frame.number_spec() == old(self).leaf(
                        idx3(page.0.0),
                        idx2(page.0.0),
                        idx1(page.0.0),
                    ).spec_ppn()
                    &&& !final(self).mapped(idx3(page.0.0), idx2(page.0.0), idx1(page.0.0))
                    &&& forall|a3: int, a2: int, a1: int|
                        !(a3 == idx3(page.0.0) && a2 == idx2(page.0.0) && a1 == idx1(page.0.0))
                            ==> #[trigger] final(self).leaf(a3, a2, a1) == old(self).leaf(
                            a3,
                            a2,
                            a1,
                        )
                },
                Err(e) => {
                    &&& e == MapError::PageNotMapped
                    &&& !old(self).mapped(idx3(page.0.0), idx2(page.0.0), idx1(page.0.0))
                    &&& final(self).tables@ == old(self).tables@
                },
            },
    {
        let i3 = page.0.p3_index();
        let i2 = page.0.p2_index();
        let i1 = page.0.p1_index();
        let e = match self.read_leaf(i3, i2, i1) {
            Ok(e) => e,
            Err(err) => {
                return Err(err);
            },
        };
        if e.is_unused() {
            return Err(MapError::PageNotMapped);
        }
        let ppn = e.ppn();
        proof {
            // every installed leaf was packed from a 32-bit-addressable
            // frame, so the shift below reconstructs its page number exactly
            assert(old(self).leaf(idx3(page.0.0), idx2(page.0.0), idx1(page.0.0)).spec_ppn()
                < 0x1_0000_0000);
        }
        proof {
            assert(0u64 >> 10 == 0) by (bit_vector);
            assert(PageTableEntry(0).spec_ppn() < 0x1_0000_0000);
        }
        self.write_leaf(i3, i2, i1, PageTableEntry(0));
        let frame = Frame(crate::addr::PhysAddr(ppn << 12));
        proof {
            let p = e.0 >> 10;
            assert(p < 0x1_0000_0000 ==> ((p << 12) as u64) / 4096 == p) by (bit_vector);
            assert(0u64 >> 10 == 0) by (bit_vector);
        }
        Ok((frame, Flush::new(page)))
    }

    /// The leaf entry of `page`, for inspection; fails where an intermediate
    /// level is missing.
    pub fn entry(&self, page: Page) -> (r: Result<PageTableEntry, MapError>)
        requires
            self.wf(),
        ensures
            match r {
                Ok(e) => self.valid2(idx3(page.0.0), idx2(page.0.0)) && e == self.leaf(
                    idx3(page.0.0),
                    idx2(page.0.0),
                    idx1(page.0.0),
                ),
                Err(e) => e == MapError::PageNotMapped && !self.valid2(
                    idx3(page.0.0),
                    idx2(page.0.0),
                ),
            },
    {
        self.read_leaf(page.0.p3_index(), page.0.p2_index(), page.0.p1_index())
    }

    /// The frame that `page` is mapped to, or `None` when it is unmapped.
    pub fn translate(&self, page: Page) -> (r: Option<Frame>)
        requires
            self.wf(),
        ensures
            match r {
                Some(frame) => self.mapped(idx3(page.0.0), idx2(page.0.0), idx1(page.0.0))
                    && frame.number_spec() == self.leaf(
                    idx3(page.0.0),
                    idx2(page.0.0),
                    idx1(page.0.0),
                ).spec_ppn(),
                None => !self.mapped(idx3(page.0.0), idx2(page.0.0), idx1(page.0.0)),
            },
    {
        let e = match self.entry(page) {
            Ok(e) => e,
            Err(_) => {
                return None;
            },
        };
        if e.is_unused() {
            return None;
        }
        let ppn = e.ppn();
        proof {
            assert(self.leaf(idx3(page.0.0), idx2(page.0.0), idx1(page.0.0)).spec_ppn()
                < 0x1_0000_0000);
        }
        let frame = Frame(crate::addr::PhysAddr(ppn << 12));
        proof {
            let p = e.0 >> 10;
            assert(p < 0x1_0000_0000 ==> ((p << 12) as u64) / 4096 == p) by (bit_vector);
        }
        Some(frame)
    }

    /// Map the frame to the virtual page at the frame's own address:
    /// virtual equals physical for this page.
    pub fn identity(&mut self, fa: &mut SegmentTreeAllocator, frame: Frame,
        flags: PageTableFlags) -> (r: Result<Flush, MapError>)
        requires
            old(self).wf(),
            old(fa).wf(),
            old(self).owns_tables(*old(fa)),
            old(fa).cap <= 0x10_0000,
            frame.0.0 < 0x1_0000_0000,
            flags.bits <= crate::page::FLAG_MASK,
        ensures
            final(self).wf(),
            final(fa).wf(),
            final(self).owns_tables(*final(fa)),
            final(fa).cap == old(fa).cap,
            final(fa).low == old(fa).low,
            final(fa).high == old(fa).high,
            ({
                let va = ((frame.0.0 / 4096) * 4096) as u64;
                match r {
                    Ok(flush) => {
                        &&& flush.0.0.0 == va
                        &&& !old(self).mapped(idx3(va), idx2(va), idx1(va))
                        &&& final(self).mapped(idx3(va), idx2(va), idx1(va))
                        &&& final(self).leaf(idx3(va), idx2(va), idx1(va)).spec_ppn()
                            == frame.number_spec()
                        &&& final(self).leaf(idx3(va), idx2(va), idx1(va)).spec_flags()
                            == flags.bits | crate::page::FLAG_ACCESSED | crate::page::FLAG_DIRTY
                        &&& forall|a3: int, a2: int, a1: int|
                            !(a3 == idx3(va) && a2 == idx2(va) && a1 == idx1(va))
                                ==> #[trigger] final(self).leaf(a3, a2, a1) == old(self).leaf(
                                a3,
                                a2,
                                a1,
                            )
                    },
                    Err(e) => {
                        &&& forall|a3: int, a2: int, a1: int|
                            #[trigger] final(self).leaf(a3, a2, a1) == old(self).leaf(a3, a2, a1)
                        &&& (e == MapError::PageAlreadyMapped <==> old(self).mapped(
                            idx3(va),
                            idx2(va),
                            idx1(va),
                        ))
                        &&& e != MapError::PageNotMapped
                    },
                }
            }),
    {
        proof {
            crate::addr::lemma_low_half_canonical(((frame.0.0 / 4096) * 4096) as u64);
        }
        let va = frame.start_address().as_u64();
        let page = Page::from_addr(VirtAddr::new(va));
        self.map(fa, page, frame, flags)
    }

    /// Rewrite the flag bits of an existing mapping, keeping its frame.
    /// Fails with `PageNotMapped` where an intermediate level is missing.
    pub fn update_flags(&mut self, page: Page, flags: PageTableFlags) -> (r: Result<
        Flush,
        MapError,
    >)
        requires
            old(self).wf(),
            flags.bits <= FLAG_MASK,
        ensures
            final(self).wf(),
            final(self).root_ppn == old(self).root_ppn,
            final(self).tables@.dom() == old(self).tables@.dom(),
            forall|a3: int| #[trigger] final(self).valid3(a3) == old(self).valid3(a3),
            forall|a3: int, a2: int|
                #[trigger] final(self).valid2(a3, a2) == old(self).valid2(a3, a2),
            match r {
                Ok(flush) => {
                    &&& flush.0 == page
                    &&& old(self).valid2(idx3(page.0.0), idx2(page.0.0))
                    &&& final(self).leaf(
                        idx3(page.0.0),
                        idx2(page.0.0),
                        idx1(page.0.0),
                    ).spec_ppn() == old(self).leaf(
                        idx3(page.0.0),
                        idx2(page.0.0),
                        idx1(page.0.0),
                    ).spec_ppn()
                    &&& final(self).leaf(idx3(page.0.0), idx2(page.0.0), idx1(page.0.0)).spec_flags()
                        == flags.bits
                    &&& forall|a3: int, a2: int, a1: int|
                        !(a3 == idx3(page.0.0) && a2 == idx2(page.0.0) && a1 == idx1(page.0.0))
                            ==> #[trigger] final(self).leaf(a3, a2, a1) == old(self).leaf(
                            a3,
                            a2,
                            a1,
                        )
                },
                Err(e) => {
                    &&& e == MapError::PageNotMapped
                    &&& !old(self).valid2(idx3(page.0.0), idx2(page.0.0))
                    &&& final(self).tables@ == old(self).tables@
                },
            },
    {
        let i3 = page.0.p3_index();
        let i2 = page.0.p2_index();
        let i1 = page.0.p1_index();
        let mut e = match self.read_leaf(i3, i2, i1) {
            Ok(e) => e,
            Err(err) => {
                return Err(err);
            },
        };
        e.set_flags(flags);
        self.write_leaf(i3, i2, i1, e);
        Ok(Flush::new(page))
    }

    /// What translation yields for `page`: the mapped frame's page number,
    /// or `None` where the page is unmapped.
    pub open spec fn translate_spec(self, page: Page) -> Option<u64> {
        if self.mapped(idx3(page.0.0), idx2(page.0.0), idx1(page.0.0)) {
            Some(self.leaf(idx3(page.0.0), idx2(page.0.0), idx1(page.0.0)).spec_ppn())
        } else {
            None
        }
    }

    /// The state relation a successful `map` of `page` to `frame` leaves
    /// behind.
    pub open spec fn map_transition(pre: Self, post: Self, page: Page, frame: Frame,
        flags: PageTableFlags) -> bool {
        &&& !pre.mapped(idx3(page.0.0), idx2(page.0.0), idx1(page.0.0))
        &&& post.mapped(idx3(page.0.0), idx2(page.0.0), idx1(page.0.0))
        &&& post.leaf(idx3(page.0.0), idx2(page.0.0), idx1(page.0.0)).spec_ppn()
            == frame.number_spec()
        &&& post.leaf(idx3(page.0.0), idx2(page.0.0), idx1(page.0.0)).spec_flags() == flags.bits
            | crate::page::FLAG_ACCESSED | crate::page::FLAG_DIRTY
        &&& forall|a3: int, a2: int, a1: int|
            !(a3 == idx3(page.0.0) && a2 == idx2(page.0.0) && a1 == idx1(page.0.0))
                ==> #[trigger] post.leaf(a3, a2, a1) == pre.leaf(a3, a2, a1)
    }

    /// The state relation a successful `unmap` of `page` leaves behind,
    /// handing back `frame`.
    pub open spec fn unmap_transition(pre: Self, post: Self, page: Page, frame: Frame) -> bool {
        &&& pre.mapped(idx3(page.0.0), idx2(page.0.0), idx1(page.0.0))
        &&& frame.number_spec() == pre.leaf(
            idx3(page.0.0),
            idx2(page.0.0),
            idx1(page.0.0),
        ).spec_ppn()
        &&& !post.mapped(idx3(page.0.0), idx2(page.0.0), idx1(page.0.0))
        &&& forall|a3: int, a2: int, a1: int|
            !(a3 == idx3(page.0.0) && a2 == idx2(page.0.0) && a1 == idx1(page.0.0))
                ==> #[trigger] post.leaf(a3, a2, a1) == pre.leaf(a3, a2, a1)
    }

    /// Mapping a page and then unmapping it is a round trip: right after the
    /// map, translation yields exactly the mapped frame; the unmap hands the
    /// same frame back; afterwards the page is unmapped again and every
    /// other canonical page translates exactly as before the map.
    pub proof fn lemma_map_unmap_round_trip(s0: Self, s1: Self, s2: Self, page: Page,
        frame: Frame, flags: PageTableFlags, out: Frame)
        requires
            Self::map_transition(s0, s1, page, frame, flags),
            Self::unmap_transition(s1, s2, page, out),
        ensures
            s1.translate_spec(page) == Some(frame.number_spec()),
            out.number_spec() == frame.number_spec(),
            s2.translate_spec(page) == None::<u64>,
            forall|q: Page|
                crate::addr::canonical(q.0.0) && q.0.0 % crate::config::PAGE_SIZE == 0
                    && crate::addr::canonical(page.0.0) && page.0.0 % crate::config::PAGE_SIZE == 0
                    && q != page ==> #[trigger] s2.translate_spec(q) == s0.translate_spec(q),
    {
        assert forall|q: Page|
            crate::addr::canonical(q.0.0) && q.0.0 % crate::config::PAGE_SIZE == 0
                && crate::addr::canonical(page.0.0) && page.0.0 % crate::config::PAGE_SIZE == 0
                && q != page implies #[trigger] s2.translate_spec(q) == s0.translate_spec(q) by {
            if idx3(q.0.0) == idx3(page.0.0) && idx2(q.0.0) == idx2(page.0.0) && idx1(q.0.0)
                == idx1(page.0.0) {
                crate::addr::lemma_triple_injective(q.0.0, page.0.0);
                assert(false);
            } else {
                assert(s2.leaf(idx3(q.0.0), idx2(q.0.0), idx1(q.0.0)) == s1.leaf(
                    idx3(q.0.0),
                    idx2(q.0.0),
                    idx1(q.0.0),
                ));
                assert(s1.leaf(idx3(q.0.0), idx2(q.0.0), idx1(q.0.0)) == s0.leaf(
                    idx3(q.0.0),
                    idx2(q.0.0),
                    idx1(q.0.0),
                ));
            }
        }
    }

    /// There is no silent overwrite: after a successful map of `page`, the
    /// page reports mapped, so a second `map` of the same page without an
    /// intervening `unmap` must return `PageAlreadyMapped` and leave every
    /// leaf — the first mapping included — untouched, as `map`'s contract
    /// states for a mapped page.
    pub proof fn lemma_no_silent_overwrite(s0: Self, s1: Self, page: Page, frame: Frame,
        flags: PageTableFlags)
        requires
            Self::map_transition(s0, s1, page, frame, flags),
        ensures
            s1.mapped(idx3(page.0.0), idx2(page.0.0), idx1(page.0.0)),
            s1.translate_spec(page) == Some(frame.number_spec()),
    {
    }

    /// The value to install in the address-translation control register for
    /// this table: the Sv39 mode code above the root's page number.
    pub fn satp(&self) -> (r: u64)
        requires
            self.root_ppn < 0x10_0000,
        ensures
            r == (8u64 << 60) | self.root_ppn,
    {
        (8u64 << 60) | self.root_ppn
    }

    /// The leaf entry of `page` together with the page, for flag
    /// inspection; fails where an intermediate level is missing.
    pub fn page_entry(&self, page: Page) -> (r: Result<PageEntry, MapError>)
        requires
            self.wf(),
        ensures
            match r {
                Ok(e) => self.valid2(idx3(page.0.0), idx2(page.0.0)) && e.pte == self.leaf(
                    idx3(page.0.0),
                    idx2(page.0.0),
                    idx1(page.0.0),
                ) && e.page == page,
                Err(e) => e == MapError::PageNotMapped && !self.valid2(
                    idx3(page.0.0),
                    idx2(page.0.0),
                ),
            },
    {
        match self.entry(page) {
            Ok(pte) => Ok(PageEntry { pte, page }),
            Err(e) => Err(e),
        }
    }

    /// Whether installing this table would change the hardware's active
    /// one: activation is skipped when the control-register value already
    /// matches, to avoid a redundant global translation-cache flush.
    pub fn needs_activation(&self, active_satp: u64) -> (r: bool)
        requires
            self.root_ppn < 0x10_0000,
        ensures
            r == (active_satp != ((8u64 << 60) | self.root_ppn)),
    {
        active_satp != self.satp()
    }
}

} // verus!

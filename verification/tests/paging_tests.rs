//! Page-table behaviour: address decomposition, entry packing, the
//! map/unmap round trip, the no-silent-overwrite rule, and address-space
//! assembly from disjoint areas.
use rvkernel::addr::{PhysAddr, VirtAddr};
use rvkernel::bits::{get_bit, get_bits, set_bit};
use rvkernel::config::{KERNEL_BEGIN_VADDR, PAGE_SIZE, PHYSICAL_MEMORY_OFFSET};
use rvkernel::frame::{kernel_frame_range, Frame};
use rvkernel::frame_alloc::SegmentTreeAllocator;
use rvkernel::memset::{ByFrame, KernelLayout, Linear, MemAttrib, MemHandler, MemSet, MemSetError};
use rvkernel::page::{
    Page, PageRange, PageTableBase, PageTableEntry, PageTableFlags, FLAG_ACCESSED, FLAG_DIRTY,
    FLAG_READABLE, FLAG_VALID, FLAG_WRITABLE,
};
use rvkernel::sv39::{MapError, Sv39PageTable};

#[test]
fn bit_field_extraction() {
    assert_eq!(get_bits(0xABCD_1234, 0, 16), 0x1234);
    assert_eq!(get_bits(0xABCD_1234, 16, 32), 0xABCD);
    assert_eq!(get_bits(u64::MAX, 0, 64), u64::MAX);
    assert!(get_bit(0b100, 2));
    assert!(!get_bit(0b100, 1));
    assert_eq!(set_bit(0, 5, true), 32);
    assert_eq!(set_bit(37, 5, false), 5);
}

#[test]
fn address_decomposition() {
    let va = VirtAddr::new(KERNEL_BEGIN_VADDR);
    assert_eq!(va.p3_index() as u64, (KERNEL_BEGIN_VADDR >> 30) & 0x1FF);
    assert_eq!(va.p2_index() as u64, (KERNEL_BEGIN_VADDR >> 21) & 0x1FF);
    assert_eq!(va.p1_index() as u64, (KERNEL_BEGIN_VADDR >> 12) & 0x1FF);
    assert_eq!(va.p4_index() as u64, (KERNEL_BEGIN_VADDR >> 39) & 0x1FF);
    assert_eq!(va.page_offset(), 0);
    assert_eq!(va.page_number(), KERNEL_BEGIN_VADDR / PAGE_SIZE);

    let pa = PhysAddr::new(0x8020_1234);
    assert_eq!(pa.page_offset(), 0x234);
    assert_eq!(pa.page_number(), 0x80201);
    assert_eq!(pa.page_aligned().as_u64(), 0x8020_1000);
    assert_eq!(pa.p1_index(), 0x201 & 0x1FF);
}

#[test]
fn entry_packing_round_trip() {
    let mut e = PageTableEntry(0);
    assert!(e.is_unused());
    let frame = Frame::from_ppn(0x1234);
    e.set(frame, PageTableFlags::new(FLAG_VALID | FLAG_READABLE));
    assert!(!e.is_unused());
    assert_eq!(e.ppn(), 0x1234);
    assert_eq!(e.flags().bits(), FLAG_VALID | FLAG_READABLE | FLAG_ACCESSED | FLAG_DIRTY);
    assert_eq!(e.addr().as_u64(), 0x1234 * PAGE_SIZE);
    assert_eq!(e.frame().number(), 0x1234);
    e.set_unused();
    assert!(e.is_unused());
}

#[test]
fn table_level_clear() {
    let mut t = PageTableBase::new();
    t.put(7, PageTableEntry(0x5555));
    assert_eq!(t.get(7).0, 0x5555);
    t.clear();
    assert_eq!(t.get(7).0, 0);
}

#[test]
fn page_range_walks_pages() {
    let mut r = PageRange::new(VirtAddr::new(0x1000), VirtAddr::new(0x3001));
    let mut pages = Vec::new();
    while let Some(p) = r.next() {
        pages.push(p.start_address().as_u64());
    }
    assert_eq!(pages, vec![0x1000, 0x2000, 0x3000]);
}

#[test]
fn map_translate_unmap_round_trip() {
    let mut fa = SegmentTreeAllocator::new(64);
    fa.init(0, 64);
    let mut tbl = Sv39PageTable::new(&mut fa);
    let page = Page::from_vpn(5);
    let frame = Frame::from_ppn(42);
    let flags = PageTableFlags::new(FLAG_VALID | FLAG_READABLE | FLAG_WRITABLE);

    assert!(tbl.translate(page).is_none());
    let flush = tbl.map(&mut fa, page, frame, flags).expect("map should succeed");
    flush.ignore();
    let hit = tbl.translate(page).expect("page should now translate");
    assert_eq!(hit.number(), 42);

    let (freed, flush2) = tbl.unmap(page).expect("unmap should succeed");
    flush2.ignore();
    assert_eq!(freed.number(), 42);
    assert!(tbl.translate(page).is_none());
    // the leaf is reachable but unused after the unmap
    let e = tbl.entry(page).expect("intermediate levels persist");
    assert!(e.is_unused());
}

#[test]
fn map_rejects_silent_overwrite() {
    let mut fa = SegmentTreeAllocator::new(64);
    fa.init(0, 64);
    let mut tbl = Sv39PageTable::new(&mut fa);
    let page = Page::from_vpn(9);
    let flags = PageTableFlags::new(FLAG_VALID | FLAG_READABLE);
    tbl.map(&mut fa, page, Frame::from_ppn(7), flags).expect("first map").ignore();
    let second = tbl.map(&mut fa, page, Frame::from_ppn(8), flags);
    assert!(matches!(second, Err(MapError::PageAlreadyMapped)));
    // the first mapping is untouched
    assert_eq!(tbl.translate(page).unwrap().number(), 7);
}

#[test]
fn map_fails_when_allocator_is_dry() {
    let mut fa = SegmentTreeAllocator::new(8);
    fa.init(0, 1);
    let mut tbl = Sv39PageTable::new(&mut fa);
    // the root consumed the only frame: no intermediate level can be built
    let r = tbl.map(
        &mut fa,
        Page::from_vpn(5),
        Frame::from_ppn(3),
        PageTableFlags::new(FLAG_VALID),
    );
    assert!(matches!(r, Err(MapError::FrameAllocationFailed)));
}

#[test]
fn unmap_of_unmapped_page_fails() {
    let mut fa = SegmentTreeAllocator::new(64);
    fa.init(0, 64);
    let mut tbl = Sv39PageTable::new(&mut fa);
    assert!(matches!(tbl.unmap(Page::from_vpn(3)), Err(MapError::PageNotMapped)));
    assert!(matches!(tbl.entry(Page::from_vpn(3)), Err(MapError::PageNotMapped)));
}

#[test]
fn update_flags_keeps_frame() {
    let mut fa = SegmentTreeAllocator::new(64);
    fa.init(0, 64);
    let mut tbl = Sv39PageTable::new(&mut fa);
    let page = Page::from_vpn(11);
    tbl.map(&mut fa, page, Frame::from_ppn(13), PageTableFlags::new(FLAG_VALID | FLAG_WRITABLE))
        .expect("map")
        .ignore();
    tbl.update_flags(page, PageTableFlags::new(FLAG_VALID | FLAG_READABLE)).expect("update").ignore();
    let e = tbl.entry(page).unwrap();
    assert_eq!(e.ppn(), 13);
    assert_eq!(e.flags().bits(), FLAG_VALID | FLAG_READABLE);
    let pe = tbl.page_entry(page).unwrap();
    assert!(pe.valid());
    assert!(pe.readable());
    assert!(!pe.writable());
    assert!(!pe.executable());
    assert!(!pe.accessed());
}

#[test]
fn satp_packs_mode_and_root() {
    let mut fa = SegmentTreeAllocator::new(64);
    fa.init(0, 64);
    let tbl = Sv39PageTable::new(&mut fa);
    let satp = tbl.satp();
    assert_eq!(satp >> 60, 8);
    assert!(!tbl.needs_activation(satp));
    assert!(tbl.needs_activation(0));
}

#[test]
fn memset_push_maps_and_rejects_overlap() {
    let mut fa = SegmentTreeAllocator::new(1024);
    fa.init(0, 1024);
    let mut ms = MemSet::new(&mut fa);
    let attrib = MemAttrib::new().readable(true).writable(true);
    let r = ms.push(
        VirtAddr::new(0x1000),
        VirtAddr::new(0x3000),
        MemHandler::ByFrame(ByFrame::new()),
        attrib,
        &mut fa,
    );
    assert!(r.is_ok());
    // both pages of the area translate afterwards
    assert!(ms.tbl.translate(Page::from_vpn(1)).is_some());
    assert!(ms.tbl.translate(Page::from_vpn(2)).is_some());
    assert!(ms.tbl.translate(Page::from_vpn(3)).is_none());

    assert!(ms.is_overlap(VirtAddr::new(0x2000), VirtAddr::new(0x4000)));
    assert!(!ms.is_overlap(VirtAddr::new(0x3000), VirtAddr::new(0x4000)));

    // a push whose pages intersect an existing area fails before mapping
    // anything
    let overlap = ms.push(
        VirtAddr::new(0x2000),
        VirtAddr::new(0x4000),
        MemHandler::ByFrame(ByFrame::new()),
        attrib,
        &mut fa,
    );
    assert!(matches!(overlap, Err(MemSetError::Overlap)));
    assert!(ms.tbl.translate(Page::from_vpn(3)).is_none());
    assert_eq!(ms.areas.len(), 1);
}

#[test]
fn memset_push_rejects_inverted_range() {
    let mut fa = SegmentTreeAllocator::new(256);
    fa.init(0, 256);
    let mut ms = MemSet::new(&mut fa);
    let r = ms.push(
        VirtAddr::new(0x3000),
        VirtAddr::new(0x1000),
        MemHandler::ByFrame(ByFrame::new()),
        MemAttrib::new().readable(true),
        &mut fa,
    );
    assert!(matches!(r, Err(MemSetError::InvalidRange)));
    assert_eq!(ms.areas.len(), 0);
}

#[test]
fn memset_linear_push_maps_at_offset() {
    let mut fa = SegmentTreeAllocator::new(1024);
    fa.init(0, 1024);
    let mut ms = MemSet::new(&mut fa);
    let r = ms.push(
        VirtAddr::new(0x10000),
        VirtAddr::new(0x12000),
        MemHandler::Linear(Linear::new(0x10000)),
        MemAttrib::new().readable(true).writable(true),
        &mut fa,
    );
    assert!(r.is_ok());
    // virtual page 0x10 maps to physical page 0, 0x11 to 1
    assert_eq!(ms.tbl.translate(Page::from_vpn(0x10)).unwrap().number(), 0);
    assert_eq!(ms.tbl.translate(Page::from_vpn(0x11)).unwrap().number(), 1);
    let pe = ms.tbl.page_entry(Page::from_vpn(0x10)).unwrap();
    assert!(pe.valid());
    assert!(pe.readable());
    assert!(pe.writable());
    assert!(!pe.executable());
    assert!(pe.accessed());
    assert!(pe.dirty());
}

#[test]
fn kernel_frame_range_numbers() {
    let (b, e) = kernel_frame_range(KERNEL_BEGIN_VADDR + 0x100000);
    assert_eq!(b, (0x8020_0000u64 + 0x100000) / 4096 + 1);
    assert_eq!(e, 0x8800_0000u64 / 4096);
    assert!(b <= e);
}

#[test]
fn kmap_builds_kernel_space() {
    let mut fa = SegmentTreeAllocator::new(0x40000);
    fa.init(0, 0x40000);
    let mut ms = MemSet::new(&mut fa);
    let k = KERNEL_BEGIN_VADDR;
    let layout = KernelLayout {
        stext: k,
        etext: k + 0x2000,
        srodata: k + 0x2000,
        erodata: k + 0x3000,
        sdata: k + 0x3000,
        edata: k + 0x4000,
        sbss: k + 0x4000,
        ebss: k + 0x6000,
        end: k + 0x6000,
    };
    let r = ms.kmap(layout, &mut fa);
    assert!(r.is_ok());
    assert_eq!(ms.areas.len(), 5);
    // kernel code is mapped linearly: its first page sits at the load
    // physical address
    let code_page = Page::from_addr(VirtAddr::new(k));
    let f = ms.tbl.translate(code_page).expect("kernel code must be mapped");
    assert_eq!(f.number(), (k - PHYSICAL_MEMORY_OFFSET) / PAGE_SIZE);
    let pe = ms.tbl.page_entry(code_page).unwrap();
    assert!(pe.valid());
    assert!(pe.readable());
    assert!(pe.executable());
    assert!(!pe.writable());
    // read-only data is not executable or writable
    let ro_page = Page::from_addr(VirtAddr::new(k + 0x2000));
    let pe2 = ms.tbl.page_entry(ro_page).unwrap();
    assert!(pe2.readable());
    assert!(!pe2.writable());
    assert!(!pe2.executable());
}

#[test]
fn empty_area_maps_nothing() {
    let mut fa = SegmentTreeAllocator::new(256);
    fa.init(0, 256);
    let mut ms = MemSet::new(&mut fa);
    let r = ms.push(
        VirtAddr::new(0x5000),
        VirtAddr::new(0x5000),
        MemHandler::ByFrame(ByFrame::new()),
        MemAttrib::new().readable(true),
        &mut fa,
    );
    assert!(r.is_ok());
    assert_eq!(ms.areas.len(), 1);
    assert!(ms.tbl.translate(Page::from_vpn(5)).is_none());
}

#[test]
fn flag_builders_compose() {
    let f = PageTableFlags::empty().insert(FLAG_VALID).with(FLAG_WRITABLE, true).with(
        FLAG_VALID,
        false,
    );
    assert_eq!(f.bits(), FLAG_WRITABLE);
    assert!(f.contains(FLAG_WRITABLE));
    assert!(!f.contains(FLAG_VALID | FLAG_WRITABLE));
    let attrib = MemAttrib::new().readable(true).executable(true).user(true);
    let rewritten = attrib.apply(PageTableFlags::new(FLAG_ACCESSED));
    assert_eq!(rewritten.bits(), FLAG_VALID | 8 | 2 | FLAG_ACCESSED);
}

#[test]
fn flush_token_names_its_page() {
    let mut fa = SegmentTreeAllocator::new(64);
    fa.init(0, 64);
    let mut tbl = Sv39PageTable::new(&mut fa);
    let page = Page::from_vpn(21);
    let flush = tbl
        .map(&mut fa, page, Frame::from_ppn(2), PageTableFlags::new(FLAG_VALID))
        .expect("map");
    assert_eq!(flush.page().start_address().as_u64(), 21 * PAGE_SIZE);
    flush.ignore();
}

#[test]
fn recursive_mapping_points_table_at_itself() {
    let mut t = PageTableBase::new();
    let frame = Frame::from_ppn(0x55);
    t.recursive(frame, 3);
    assert_eq!(t.get(3).ppn(), 0x55);
    assert_eq!(t.get(3).flags().bits(), FLAG_VALID | FLAG_ACCESSED | FLAG_DIRTY);
    assert_eq!(t.get(4).ppn(), 0x55);
    assert_eq!(
        t.get(4).flags().bits(),
        FLAG_VALID | FLAG_READABLE | FLAG_WRITABLE | FLAG_ACCESSED | FLAG_DIRTY
    );
    assert_eq!(t.get(5).0, 0);
}

#[test]
fn identity_maps_virtual_equal_to_physical() {
    let mut fa = SegmentTreeAllocator::new(256);
    fa.init(0, 256);
    let mut tbl = Sv39PageTable::new(&mut fa);
    let frame = Frame::from_ppn(0x30);
    let flush = tbl
        .identity(&mut fa, frame, PageTableFlags::new(FLAG_VALID | FLAG_READABLE))
        .expect("identity map");
    flush.ignore();
    assert_eq!(tbl.translate(Page::from_vpn(0x30)).unwrap().number(), 0x30);
    let again = tbl.identity(&mut fa, frame, PageTableFlags::new(FLAG_VALID));
    assert!(matches!(again, Err(MapError::PageAlreadyMapped)));
}

#[test]
fn push_succeeds_with_exactly_its_capacity() {
    // one fresh-frame page in a fresh table needs one data frame and one
    // table per missing level: three frames beyond the root
    let mut fa = SegmentTreeAllocator::new(16);
    fa.init(0, 4);
    let mut ms = MemSet::new(&mut fa);
    assert_eq!(fa.free_frames(), 3);
    let r = ms.push(
        VirtAddr::new(0x1000),
        VirtAddr::new(0x2000),
        MemHandler::ByFrame(ByFrame::new()),
        MemAttrib::new().readable(true),
        &mut fa,
    );
    assert!(r.is_ok());
    assert!(ms.tbl.translate(Page::from_vpn(1)).is_some());
    assert_eq!(fa.free_frames(), 0);
}

//! Frame-allocator behaviour: exhaustion, reuse, and the lenient no-op
//! deallocation policy.
use rvkernel::frame_alloc::{BitSet, SegmentTreeAllocator};

#[test]
fn bitset_set_get_reset() {
    let mut bs = BitSet::new(130);
    assert!(!bs.get(0));
    assert!(!bs.get(129));
    bs.set(0);
    bs.set(129);
    assert!(bs.get(0));
    assert!(bs.get(129));
    assert!(!bs.get(64));
    bs.reset(129);
    assert!(!bs.get(129));
    assert!(bs.get(0));
    assert!(bs.cap() >= 130);
}

#[test]
fn allocator_exhaustion_returns_distinct_then_none() {
    // a range of 4 usable pages: 4 allocations succeed with distinct pages,
    // the 5th returns None
    let mut fa = SegmentTreeAllocator::new(8);
    fa.init(2, 6);
    assert_eq!(fa.free_frames(), 4);
    let mut got = Vec::new();
    for _ in 0..4 {
        let p = fa.allocate().expect("a page should be free");
        assert!((2..6).contains(&p));
        assert!(!got.contains(&p));
        got.push(p);
    }
    assert_eq!(fa.free_frames(), 0);
    assert_eq!(fa.allocate(), None);
}

#[test]
fn allocator_reuse_returns_freed_page() {
    let mut fa = SegmentTreeAllocator::new(8);
    fa.init(0, 8);
    let a = fa.allocate().unwrap();
    let b = fa.allocate().unwrap();
    assert_ne!(a, b);
    let live_before_dealloc = fa.live();
    fa.dealloc(a);
    assert_eq!(fa.live(), live_before_dealloc - 1);
    let c = fa.allocate().unwrap();
    // the freed page is the leftmost free page again, so the next
    // allocation hands it back
    assert_eq!(c, a);
    assert_eq!(fa.live(), live_before_dealloc);
}

#[test]
fn allocator_full_cycle_over_whole_range() {
    let n = 16;
    let mut fa = SegmentTreeAllocator::new(32);
    fa.init(4, 4 + n);
    let mut pages = Vec::new();
    for _ in 0..n {
        pages.push(fa.allocate().expect("should not be exhausted yet"));
    }
    assert_eq!(fa.allocate(), None);
    for p in pages {
        fa.dealloc(p);
    }
    assert_eq!(fa.free_frames(), n);
    assert!(fa.allocate().is_some());
}

#[test]
fn dealloc_of_free_page_is_noop() {
    let mut fa = SegmentTreeAllocator::new(8);
    fa.init(0, 4);
    let a = fa.allocate().unwrap();
    fa.dealloc(a);
    let live = fa.live();
    // freeing an already-free page changes nothing
    fa.dealloc(a);
    assert_eq!(fa.live(), live);
    assert_eq!(fa.free_frames(), 4);
}

#[test]
fn dealloc_outside_usable_range_is_noop() {
    let mut fa = SegmentTreeAllocator::new(8);
    fa.init(2, 6);
    let live = fa.live();
    fa.dealloc(0);
    fa.dealloc(7);
    assert_eq!(fa.live(), live);
    assert_eq!(fa.free_frames(), 4);
}

#[test]
fn allocator_before_init_is_exhausted() {
    let mut fa = SegmentTreeAllocator::new(8);
    assert_eq!(fa.allocate(), None);
}

#[test]
fn init_redeclares_range() {
    let mut fa = SegmentTreeAllocator::new(8);
    fa.init(0, 2);
    assert!(fa.allocate().is_some());
    fa.init(4, 8);
    assert_eq!(fa.live(), 0);
    assert_eq!(fa.free_frames(), 4);
    let p = fa.allocate().unwrap();
    assert!((4..8).contains(&p));
}

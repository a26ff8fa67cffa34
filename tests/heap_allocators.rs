use oubre_os::allocator::bump::BumpAllocator;
use oubre_os::allocator::fixed_size_block::{best_fit_index, FSBAllocator};
use oubre_os::allocator::linked_list::LinkedListAllocator;
use oubre_os::allocator::{Dummy, Layout, LayoutError};

fn layout(size: u64, align: u64) -> Layout {
    Layout::from_size_align(size, align).unwrap()
}

#[test]
fn layout_rejects_bad_alignment() {
    assert_eq!(Layout::from_size_align(8, 3), Err(LayoutError));
    assert_eq!(Layout::from_size_align(8, 0), Err(LayoutError));
    assert_eq!(Layout::from_size_align(i64::MAX as u64, 2), Err(LayoutError));
    let l = layout(24, 8);
    assert_eq!(l.size(), 24);
    assert_eq!(l.align(), 8);
}

#[test]
fn bump_round_trip_resets_cursor() {
    let mut heap = BumpAllocator::new();
    heap.init(0x1000, 4096);
    let a = heap.allocate(layout(8, 8)).unwrap();
    let b = heap.allocate(layout(16, 16)).unwrap();
    let c = heap.allocate(layout(32, 32)).unwrap();
    assert_eq!(a, 0x1000);
    assert_eq!(b, 0x1010);
    assert_eq!(c, 0x1020);
    heap.deallocate(a, layout(8, 8));
    heap.deallocate(b, layout(16, 16));
    heap.deallocate(c, layout(32, 32));
    assert_eq!(heap.allocate(layout(8, 8)), Some(a));
}

#[test]
fn bump_aligns_and_fails_at_heap_end() {
    let mut heap = BumpAllocator::new();
    heap.init(0x1001, 63);
    assert_eq!(heap.allocate(layout(8, 16)), Some(0x1010));
    assert_eq!(heap.allocate(layout(40, 1)), Some(0x1018));
    assert_eq!(heap.allocate(layout(1, 1)), None);
}

#[test]
fn bump_keeps_cursor_while_allocations_live() {
    let mut heap = BumpAllocator::new();
    heap.init(0x2000, 100);
    let a = heap.allocate(layout(10, 1)).unwrap();
    let _b = heap.allocate(layout(10, 1)).unwrap();
    heap.deallocate(a, layout(10, 1));
    assert_eq!(heap.allocate(layout(10, 1)), Some(0x2014));
}

#[test]
fn linked_list_first_fit_reuses_freed_block() {
    let mut heap = LinkedListAllocator::new();
    heap.init(0x10000, 200);
    let first = heap.allocate(layout(80, 8)).unwrap();
    let second = heap.allocate(layout(80, 8)).unwrap();
    assert_eq!(first, 0x10000);
    assert_eq!(second, 0x10050);
    heap.deallocate(first, layout(80, 8));
    assert_eq!(heap.allocate(layout(80, 8)), Some(first));
}

#[test]
fn linked_list_fails_when_nothing_fits() {
    let mut heap = LinkedListAllocator::new();
    heap.init(0x10000, 200);
    assert_eq!(heap.allocate(layout(201, 8)), None);
    // a leftover of 8 bytes could not hold a header
    assert_eq!(heap.allocate(layout(192, 8)), None);
    assert_eq!(heap.allocate(layout(200, 8)), Some(0x10000));
    assert_eq!(heap.allocate(layout(1, 1)), None);
}

#[test]
fn linked_list_aligns_inside_block() {
    let mut heap = LinkedListAllocator::new();
    heap.init(0x10008, 120);
    assert_eq!(heap.allocate(layout(16, 64)), Some(0x10040));
}

#[test]
fn linked_list_rounds_small_requests_to_header_size() {
    let mut heap = LinkedListAllocator::new();
    heap.init(0x10000, 64);
    assert_eq!(heap.allocate(layout(1, 1)), Some(0x10000));
    assert_eq!(heap.allocate(layout(1, 1)), Some(0x10010));
}

#[test]
fn empty_linked_list_allocator_fails() {
    let mut heap = LinkedListAllocator::new();
    assert_eq!(heap.allocate(layout(8, 8)), None);
}

#[test]
fn size_class_selection() {
    assert_eq!(best_fit_index(&layout(10, 8)), Some(1));
    assert_eq!(best_fit_index(&layout(1, 1)), Some(0));
    assert_eq!(best_fit_index(&layout(8, 32)), Some(2));
    assert_eq!(best_fit_index(&layout(2048, 8)), Some(8));
    assert_eq!(best_fit_index(&layout(2049, 8)), None);
    assert_eq!(best_fit_index(&layout(4096, 8)), None);
}

#[test]
fn fixed_size_block_reuses_block_of_its_class() {
    let mut heap = FSBAllocator::new();
    heap.init(0x20000, 0x4000);
    let a = heap.allocate(layout(10, 8)).unwrap();
    assert_eq!(a % 16, 0);
    heap.deallocate(a, layout(10, 8));
    assert_eq!(heap.allocate(layout(16, 16)), Some(a));
}

#[test]
fn fixed_size_block_large_request_uses_fallback() {
    let mut heap = FSBAllocator::new();
    heap.init(0x20000, 0x4000);
    let big = heap.allocate(layout(4096, 8)).unwrap();
    assert_eq!(big, 0x20000);
    heap.deallocate(big, layout(4096, 8));
    assert_eq!(heap.allocate(layout(4096, 8)), Some(big));
}

#[test]
fn fixed_size_block_fails_without_heap() {
    let mut heap = FSBAllocator::new();
    assert_eq!(heap.allocate(layout(10, 8)), None);
    assert_eq!(heap.allocate(layout(4096, 8)), None);
}

#[test]
fn dummy_allocator_always_fails() {
    assert_eq!(Dummy.allocate(layout(8, 8)), None);
}

#[test]
fn bump_counts_live_allocations() {
    let mut heap = BumpAllocator::new();
    heap.init(0x3000, 64);
    assert_eq!(heap.live_allocations(), 0);
    let a = heap.allocate(layout(8, 8)).unwrap();
    assert_eq!(heap.live_allocations(), 1);
    assert_eq!(heap.allocate(layout(100, 8)), None);
    assert_eq!(heap.live_allocations(), 1);
    heap.deallocate(a, layout(8, 8));
    assert_eq!(heap.live_allocations(), 0);
}

#[test]
fn linked_list_checks_blocks_given_back() {
    let mut heap = LinkedListAllocator::new();
    heap.init(0x10000, 200);
    let a = heap.allocate(layout(32, 8)).unwrap();
    assert!(heap.can_deallocate(a, layout(32, 8)));
    assert!(!heap.can_deallocate(a + 4, layout(32, 8)));
    assert!(!heap.can_deallocate(0x10000 + 192, layout(32, 8)));
    assert!(!heap.can_deallocate(0x8000, layout(32, 8)));
    assert_eq!(heap.heap_bounds(), (0x10000, 200));
}

#[test]
fn fixed_size_block_checks_blocks_given_back() {
    let mut heap = FSBAllocator::new();
    heap.init(0x20000, 0x4000);
    let a = heap.allocate(layout(10, 8)).unwrap();
    assert!(heap.can_deallocate(a, layout(10, 8)));
    assert!(!heap.can_deallocate(a + 8, layout(10, 8)));
    assert!(!heap.can_deallocate(0x24000, layout(10, 8)));
    assert!(heap.can_deallocate(0x20000, layout(4096, 8)));
    assert!(heap.can_deallocate(0x23000, layout(4096, 8)));
    assert!(!heap.can_deallocate(0x23008, layout(4096, 8)));
}

#[test]
fn allocations_stay_inside_the_heap() {
    let mut heap = LinkedListAllocator::new();
    heap.init(0x10000, 200);
    while let Some(a) = heap.allocate(layout(24, 8)) {
        assert!(0x10000 <= a && a + 24 <= 0x10000 + 200);
    }
    let mut fsb = FSBAllocator::new();
    fsb.init(0x20000, 0x400);
    while let Some(a) = fsb.allocate(layout(100, 8)) {
        assert!(0x20000 <= a && a + 128 <= 0x20400);
    }
}

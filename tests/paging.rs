use oubre_os::allocator::fixed_size_block::FSBAllocator;
use oubre_os::allocator::linked_list::LinkedListAllocator;
use oubre_os::allocator::{
    init_heap, HeapInit, HeapInitAction, HeapInitError, Layout, HEAP_PAGES, HEAP_SIZE, HEAP_START,
};
use oubre_os::frame::{
    BootInfoFrameAllocator, EmptyFrameAllocator, FrameAllocator, MemoryRegion, MemoryRegionType,
    PhysFrame,
};
use oubre_os::paging::{
    create_example_mapping, MapToError, OffsetPageTable, Page, PRESENT, WRITABLE,
};

fn frames(count: u64) -> BootInfoFrameAllocator {
    BootInfoFrameAllocator::init(vec![MemoryRegion {
        start_addr: 0x10_0000,
        end_addr: 0x10_0000 + count * 4096,
        region_type: MemoryRegionType::Usable,
    }])
}

fn mapper() -> OffsetPageTable {
    OffsetPageTable::init(0xffff_8000_0000_0000, PhysFrame { start_address: 0x1000 })
}

#[test]
fn mapped_page_translates_at_same_offset() {
    let mut mapper = mapper();
    let mut allocator = frames(3);
    let page = Page::containing_address(0x4000_0123);
    let frame = PhysFrame { start_address: 0x9000 };
    let flush = mapper.map_to(page, frame, PRESENT | WRITABLE, &mut allocator).unwrap();
    assert_eq!(flush.page, Page { start_address: 0x4000_0000 });
    assert_eq!(mapper.translate_addr(0x4000_0000), Some(0x9000));
    assert_eq!(mapper.translate_addr(0x4000_0123), Some(0x9123));
    assert_eq!(mapper.translate_addr(0x4000_0fff), Some(0x9fff));
    assert_eq!(mapper.translate_addr(0x4000_1000), None);
    // the three missing tables used up the three frames
    assert_eq!(allocator.allocate_frame(), None);
}

#[test]
fn neighbouring_page_reuses_tables() {
    let mut mapper = mapper();
    let mut allocator = frames(4);
    let frame_a = PhysFrame { start_address: 0x9000 };
    let frame_b = PhysFrame { start_address: 0xa000 };
    mapper.map_to(Page { start_address: 0x4000_0000 }, frame_a, WRITABLE, &mut allocator).unwrap();
    mapper.map_to(Page { start_address: 0x4000_1000 }, frame_b, WRITABLE, &mut allocator).unwrap();
    assert_eq!(mapper.translate_addr(0x4000_1010), Some(0xa010));
    assert_eq!(allocator.allocate_frame(), Some(PhysFrame { start_address: 0x10_3000 }));
}

#[test]
fn mapping_a_mapped_page_is_refused() {
    let mut mapper = mapper();
    let mut allocator = frames(3);
    let page = Page { start_address: 0x4000_0000 };
    let first = PhysFrame { start_address: 0x9000 };
    mapper.map_to(page, first, WRITABLE, &mut allocator).unwrap();
    let second = PhysFrame { start_address: 0xa000 };
    assert_eq!(
        mapper.map_to(page, second, WRITABLE, &mut allocator),
        Err(MapToError::PageAlreadyMapped(first))
    );
    assert_eq!(mapper.translate_addr(0x4000_0000), Some(0x9000));
}

#[test]
fn mapping_without_frames_for_tables_fails() {
    let mut mapper = mapper();
    let mut allocator = EmptyFrameAllocator;
    let page = Page { start_address: 0x4000_0000 };
    let frame = PhysFrame { start_address: 0x9000 };
    assert_eq!(
        mapper.map_to(page, frame, WRITABLE, &mut allocator),
        Err(MapToError::FrameAllocationFailed)
    );
    assert_eq!(mapper.translate_addr(0x4000_0000), None);
}

#[test]
fn example_mapping_reaches_display_buffer() {
    let mut mapper = mapper();
    let mut allocator = frames(3);
    let page = Page { start_address: 0xdead_b000 };
    assert!(create_example_mapping(page, &mut mapper, &mut allocator).is_ok());
    assert_eq!(mapper.translate_addr(0xdead_b004), Some(0xb8004));
}

#[test]
fn top_level_table_is_read_through_the_mirror() {
    let mapper = mapper();
    assert_eq!(mapper.active_level_4_table(), 0xffff_8000_0000_1000);
}

#[test]
fn heap_initialization_backs_every_heap_page() {
    let mut mapper = mapper();
    let mut allocator = frames(28);
    let mut heap = FSBAllocator::new();
    let flushes = init_heap(&mut mapper, &mut allocator, &mut heap).unwrap();
    assert_eq!(flushes.len() as u64, HEAP_PAGES);
    assert_eq!(flushes[0].page, Page { start_address: HEAP_START });
    // the first page takes the first frame, its three tables the next three
    assert_eq!(mapper.translate_addr(HEAP_START), Some(0x10_0000));
    assert_eq!(mapper.translate_addr(HEAP_START + 4096 + 5), Some(0x10_4005));
    assert!(mapper.translate_addr(HEAP_START + HEAP_SIZE - 1).is_some());
    assert_eq!(mapper.translate_addr(HEAP_START + HEAP_SIZE), None);
    assert_eq!(allocator.allocate_frame(), None);
    let block = heap.allocate(Layout::from_size_align(64, 8).unwrap()).unwrap();
    assert!(HEAP_START <= block && block + 64 <= HEAP_START + HEAP_SIZE);
}

#[test]
fn heap_initialization_reports_frame_exhaustion() {
    let mut mapper = mapper();
    let mut allocator = frames(10);
    let mut heap = LinkedListAllocator::new();
    assert_eq!(
        init_heap(&mut mapper, &mut allocator, &mut heap),
        Err(HeapInitError::FrameAllocationFailed)
    );
    // pages mapped before the failure stay mapped
    assert!(mapper.translate_addr(HEAP_START).is_some());
    // the allocator was not given the heap
    assert_eq!(heap.allocate(Layout::from_size_align(8, 8).unwrap()), None);
}

#[test]
fn heap_initialization_reports_mapped_page() {
    let mut mapper = mapper();
    let mut allocator = frames(40);
    let taken = PhysFrame { start_address: 0x9000 };
    let page = Page { start_address: HEAP_START + 2 * 4096 };
    mapper.map_to(page, taken, WRITABLE, &mut allocator).unwrap();
    let mut heap = LinkedListAllocator::new();
    assert_eq!(
        init_heap(&mut mapper, &mut allocator, &mut heap),
        Err(HeapInitError::PageAlreadyMapped(taken))
    );
}

#[test]
fn heap_is_initialized_once() {
    // Giving an allocator its heap a second time is not allowed; the contract
    // of `init` rules it out, so this only shows the single call.
    let mut heap = LinkedListAllocator::new();
    heap.init(HEAP_START, HEAP_SIZE);
    assert_eq!(heap.allocate(Layout::from_size_align(8, 8).unwrap()), Some(HEAP_START));
}

#[test]
fn heap_setup_steps_through_pages() {
    let mut allocator = frames(3);
    let mut heap = LinkedListAllocator::new();
    let mut setup = HeapInit::new();
    assert_eq!(
        setup.next_action(&mut allocator, &mut heap),
        HeapInitAction::MapPage(Page { start_address: HEAP_START }, PhysFrame { start_address: 0x10_0000 })
    );
    assert_eq!(setup.map_outcome(Ok(())), None);
    assert_eq!(
        setup.next_action(&mut allocator, &mut heap),
        HeapInitAction::MapPage(Page { start_address: HEAP_START + 4096 }, PhysFrame { start_address: 0x10_1000 })
    );
    let taken = PhysFrame { start_address: 0x9000 };
    assert_eq!(
        setup.map_outcome(Err(MapToError::PageAlreadyMapped(taken))),
        Some(HeapInitError::PageAlreadyMapped(taken))
    );
}

#[test]
fn heap_setup_fails_without_frames_and_reports_huge_pages() {
    let mut allocator = EmptyFrameAllocator;
    let mut heap = LinkedListAllocator::new();
    let mut setup = HeapInit::new();
    assert_eq!(
        setup.next_action(&mut allocator, &mut heap),
        HeapInitAction::Failed(HeapInitError::FrameAllocationFailed)
    );
    assert_eq!(
        setup.map_outcome(Err(MapToError::ParentEntryHugePage)),
        Some(HeapInitError::ParentEntryHugePage)
    );
}

#[test]
fn heap_setup_gives_the_heap_after_the_last_page() {
    let mut allocator = frames(HEAP_PAGES);
    let mut heap = LinkedListAllocator::new();
    let mut setup = HeapInit::new();
    for k in 0..HEAP_PAGES {
        match setup.next_action(&mut allocator, &mut heap) {
            HeapInitAction::MapPage(page, _) => assert_eq!(page.start_address, HEAP_START + 4096 * k),
            other => panic!("unexpected step {:?}", other),
        }
        assert_eq!(setup.map_outcome(Ok(())), None);
    }
    assert_eq!(setup.next_action(&mut allocator, &mut heap), HeapInitAction::Done);
    assert_eq!(heap.heap_bounds(), (HEAP_START, HEAP_SIZE));
}

#[test]
fn mirrored_address_adds_offset() {
    assert_eq!(OffsetPageTable::mirrored_address(0x1000_0000, 0x2000), Some(0x1000_2000));
    assert_eq!(OffsetPageTable::mirrored_address(u64::MAX, 1), None);
}

use oubre_os::frame::{
    memory_map_is_well_formed, BootInfoFrameAllocator, EmptyFrameAllocator, FrameAllocator, MemoryRegion, MemoryRegionType,
    PhysFrame,
};

fn region(start_addr: u64, end_addr: u64, region_type: MemoryRegionType) -> MemoryRegion {
    MemoryRegion { start_addr, end_addr, region_type }
}

fn sample_map() -> Vec<MemoryRegion> {
    vec![
        region(0x0000, 0x1000, MemoryRegionType::InUse),
        region(0x1000, 0x3000, MemoryRegionType::Usable),
        region(0x3000, 0x5000, MemoryRegionType::Reserved),
        region(0x5000, 0x6000, MemoryRegionType::Usable),
        region(0x6000, 0x6000, MemoryRegionType::Usable),
    ]
}

#[test]
fn frames_come_from_usable_regions_in_order() {
    let mut allocator = BootInfoFrameAllocator::init(sample_map());
    assert_eq!(allocator.allocate_frame(), Some(PhysFrame { start_address: 0x1000 }));
    assert_eq!(allocator.allocate_frame(), Some(PhysFrame { start_address: 0x2000 }));
    assert_eq!(allocator.allocate_frame(), Some(PhysFrame { start_address: 0x5000 }));
}

#[test]
fn frames_are_distinct_aligned_and_usable() {
    let map = sample_map();
    let mut allocator = BootInfoFrameAllocator::init(map.clone());
    let mut issued: Vec<u64> = Vec::new();
    while let Some(frame) = allocator.allocate_frame() {
        assert_eq!(frame.start_address % 4096, 0);
        assert!(!issued.contains(&frame.start_address));
        assert!(map.iter().any(|r| r.region_type == MemoryRegionType::Usable
            && r.start_addr <= frame.start_address
            && frame.start_address + 4096 <= r.end_addr));
        issued.push(frame.start_address);
    }
    assert_eq!(issued.len(), 3);
}

#[test]
fn exhausted_allocator_keeps_failing() {
    let mut allocator = BootInfoFrameAllocator::init(sample_map());
    for _ in 0..3 {
        assert!(allocator.allocate_frame().is_some());
    }
    for _ in 0..5 {
        assert_eq!(allocator.allocate_frame(), None);
    }
}

#[test]
fn empty_memory_map_has_no_frame() {
    let mut allocator = BootInfoFrameAllocator::init(Vec::new());
    assert_eq!(allocator.allocate_frame(), None);
}

#[test]
fn map_without_usable_region_has_no_frame() {
    let mut allocator = BootInfoFrameAllocator::init(vec![
        region(0x0000, 0x8000, MemoryRegionType::Reserved),
        region(0x8000, 0x9000, MemoryRegionType::InUse),
    ]);
    assert_eq!(allocator.allocate_frame(), None);
}

#[test]
fn empty_frame_allocator_never_gives_a_frame() {
    let mut allocator = EmptyFrameAllocator;
    assert_eq!(allocator.allocate_frame(), None);
    assert_eq!(allocator.allocate_frame(), None);
}

#[test]
fn containing_frame_rounds_down() {
    assert_eq!(PhysFrame::containing_address(0xb8123), PhysFrame { start_address: 0xb8000 });
    assert_eq!(PhysFrame::containing_address(0x2000), PhysFrame { start_address: 0x2000 });
}

#[test]
fn memory_map_well_formedness() {
    assert!(memory_map_is_well_formed(&sample_map()));
    assert!(memory_map_is_well_formed(&Vec::new()));
    assert!(!memory_map_is_well_formed(&vec![region(0x1000, 0x2800, MemoryRegionType::Usable)]));
    assert!(!memory_map_is_well_formed(&vec![region(0x3000, 0x2000, MemoryRegionType::Usable)]));
    assert!(!memory_map_is_well_formed(&vec![
        region(0x1000, 0x4000, MemoryRegionType::Usable),
        region(0x3000, 0x5000, MemoryRegionType::Reserved),
    ]));
    assert!(!memory_map_is_well_formed(&vec![
        region(0x5000, 0x6000, MemoryRegionType::Usable),
        region(0x1000, 0x2000, MemoryRegionType::Usable),
    ]));
}

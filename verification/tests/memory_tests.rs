use orbit::memory::{
    align_down, align_up, allocate_frame, allocated_frames, regions_align_in_range, remaining_bytes,
    MemoryRegion, MemoryRegionKind, PhysicalAllocator, MAX_RANGES, PAGE_SIZE,
};

fn usable(start: u64, end: u64) -> MemoryRegion {
    MemoryRegion { start, end, kind: MemoryRegionKind::Usable }
}

#[test]
fn align_up_rounds_to_the_next_page() {
    assert_eq!(align_up(0, PAGE_SIZE), 0);
    assert_eq!(align_up(1, PAGE_SIZE), 4096);
    assert_eq!(align_up(4095, PAGE_SIZE), 4096);
    assert_eq!(align_up(4096, PAGE_SIZE), 4096);
    assert_eq!(align_up(4097, PAGE_SIZE), 8192);
    assert_eq!(align_up(0x1001, PAGE_SIZE), 0x2000);
    assert_eq!(align_up(u64::MAX - 4095, PAGE_SIZE), u64::MAX - 4095);
}

#[test]
fn align_down_rounds_to_the_previous_page() {
    assert_eq!(align_down(0, PAGE_SIZE), 0);
    assert_eq!(align_down(4095, PAGE_SIZE), 0);
    assert_eq!(align_down(8191, PAGE_SIZE), 4096);
    assert_eq!(align_down(u64::MAX, PAGE_SIZE), u64::MAX - 4095);
}

#[test]
fn align_with_other_alignments_follows_the_mask() {
    assert_eq!(align_up(5, 8), 8);
    assert_eq!(align_up(5, 1), 5);
    // not a power of two: the mask formula, (5 + 2) & !2
    assert_eq!(align_up(5, 3), 5);
    assert_eq!(align_down(7, 3), 5);
}

#[test]
fn initialize_keeps_only_aligned_usable_ranges() {
    let regions = [
        usable(0x0FFF, 0x5007),
        MemoryRegion { start: 0x10000, end: 0x20000, kind: MemoryRegionKind::Bootloader },
        MemoryRegion { start: 0x20000, end: 0x30000, kind: MemoryRegionKind::UnknownBios(2) },
        usable(0x6001, 0x6FFF),
        usable(0x9000, 0x9000),
        usable(0xA000, 0x8000),
        usable(0x40000, 0x42000),
    ];
    let mut allocator = PhysicalAllocator::new();
    allocator.initialize(&regions);
    assert_eq!(allocator.range_count(), 2);
    assert_eq!(remaining_bytes(&allocator), 0x4000 + 0x2000);
    assert_eq!(allocated_frames(&allocator), 0);
}

#[test]
fn frames_come_in_address_order_until_none_is_left() {
    let regions = [usable(0x1000, 0x3000), usable(0x8000, 0x9000)];
    let mut allocator = PhysicalAllocator::new();
    allocator.initialize(&regions);
    assert_eq!(allocator.remaining_bytes(), 3 * PAGE_SIZE);
    let a = allocate_frame(&mut allocator).unwrap();
    assert_eq!(a.start_address(), 0x1000);
    assert_eq!(remaining_bytes(&allocator), 2 * PAGE_SIZE);
    let b = allocate_frame(&mut allocator).unwrap();
    assert_eq!(b.start_address(), 0x2000);
    let c = allocator.allocate_next().unwrap();
    assert_eq!(c.start_address(), 0x8000);
    assert_eq!(allocated_frames(&allocator), 3);
    assert_eq!(remaining_bytes(&allocator), 0);
    assert!(allocate_frame(&mut allocator).is_none());
    assert!(allocate_frame(&mut allocator).is_none());
    assert_eq!(allocated_frames(&allocator), 3);
}

#[test]
fn empty_allocator_hands_out_nothing() {
    let mut allocator = PhysicalAllocator::new();
    assert_eq!(allocator.range_count(), 0);
    assert_eq!(allocator.remaining_bytes(), 0);
    assert!(allocator.allocate_next().is_none());
    assert_eq!(allocated_frames(&allocator), 0);
}

#[test]
fn successive_frames_are_distinct_and_aligned() {
    let regions = [usable(0x100000, 0x110000), usable(0x200123, 0x204000)];
    let mut allocator = PhysicalAllocator::new();
    allocator.initialize(&regions);
    let mut seen: Vec<u64> = Vec::new();
    while let Some(frame) = allocator.allocate_next() {
        let addr = frame.start_address();
        assert_eq!(addr % PAGE_SIZE, 0);
        assert!(!seen.contains(&addr));
        seen.push(addr);
    }
    assert_eq!(seen.len(), 16 + 3);
    assert_eq!(seen[16], 0x201000);
}

#[test]
fn reinitializing_forgets_earlier_allocations() {
    let regions = [usable(0x1000, 0x3000)];
    let mut allocator = PhysicalAllocator::new();
    allocator.initialize(&regions);
    allocator.allocate_next();
    allocator.allocate_next();
    allocator.initialize(&regions);
    assert_eq!(allocated_frames(&allocator), 0);
    assert_eq!(allocator.allocate_next().unwrap().start_address(), 0x1000);
}

#[test]
fn range_table_keeps_the_first_max_ranges() {
    let mut regions = Vec::new();
    for i in 0..(MAX_RANGES as u64 + 5) {
        regions.push(usable(i * 0x10000, i * 0x10000 + 0x1000));
    }
    let mut allocator = PhysicalAllocator::new();
    allocator.initialize(&regions);
    assert_eq!(allocator.range_count(), MAX_RANGES);
    assert_eq!(allocator.remaining_bytes(), MAX_RANGES as u64 * PAGE_SIZE);
}

#[test]
fn regions_near_the_top_cannot_be_aligned() {
    assert!(regions_align_in_range(&[usable(0x1000, 0x2000)]));
    assert!(!regions_align_in_range(&[usable(u64::MAX - 10, u64::MAX)]));
    assert!(!regions_align_in_range(&[usable(u64::MAX - 4094, u64::MAX)]));
    assert!(regions_align_in_range(&[usable(u64::MAX - 4095, u64::MAX)]));
    assert!(regions_align_in_range(&[MemoryRegion {
        start: u64::MAX - 10,
        end: u64::MAX,
        kind: MemoryRegionKind::Bootloader,
    }]));
    let mut regions = Vec::new();
    for i in 0..MAX_RANGES as u64 {
        regions.push(usable(i * 0x10000, i * 0x10000 + 0x1000));
    }
    regions.push(usable(u64::MAX - 10, u64::MAX));
    assert!(regions_align_in_range(&regions));
}

#[test]
fn a_region_at_the_top_page_is_taken_whole() {
    let regions = [usable(u64::MAX - 4095, u64::MAX), usable(0x1000, 0x2000)];
    assert!(regions_align_in_range(&regions));
    let mut allocator = PhysicalAllocator::new();
    allocator.initialize(&regions);
    // [MAX - 4095, MAX) is shorter than a page once its end is rounded down
    assert_eq!(allocator.range_count(), 1);
    assert_eq!(allocator.allocate_next().unwrap().start_address(), 0x1000);
}

#[test]
fn handed_out_pages_plus_free_bytes_stay_constant() {
    let regions = [usable(0x1000, 0x4000), usable(0x10000, 0x12000)];
    let mut allocator = PhysicalAllocator::new();
    allocator.initialize(&regions);
    let total = remaining_bytes(&allocator);
    assert_eq!(total, 5 * PAGE_SIZE);
    let mut handed = 0u64;
    for _ in 0..8 {
        let before = remaining_bytes(&allocator);
        let frame = allocate_frame(&mut allocator);
        if frame.is_some() {
            handed += 1;
            assert_eq!(remaining_bytes(&allocator), before - PAGE_SIZE);
        } else {
            assert_eq!(remaining_bytes(&allocator), before);
        }
        assert_eq!(allocated_frames(&allocator), handed);
        assert_eq!(allocated_frames(&allocator) * PAGE_SIZE + remaining_bytes(&allocator), total);
    }
    assert_eq!(handed, 5);
}

use kernel_mem::frame_allocator::{
    BitMapFrameAllocator, FrameInfo, MemoryMapEntryType, MemoryRegion, ceil_div_u64,
    first_zero_bit,
};
use kernel_mem::utils::{ceil_div_usize, mem_regions_overlap};

fn region(start: u64, end: u64, entry_type: MemoryMapEntryType) -> MemoryRegion {
    MemoryRegion { start_address: start, end_address: end, entry_type }
}

fn reference_map() -> Vec<MemoryRegion> {
    vec![
        region(0, 0xA0000, MemoryMapEntryType::Usable),
        region(0xA0000, 0x100000, MemoryMapEntryType::Reserved),
        region(0x100000, 0x8000000, MemoryMapEntryType::Usable),
    ]
}

#[test]
fn bitmap_construction() {
    let allocator = BitMapFrameAllocator::new(&reference_map()).unwrap();
    assert_eq!(allocator.memory_end, 0x8000000);
    assert_eq!(allocator.frames_amount, 0x8000);
    assert_eq!(allocator.bitmap_size_in_bytes, 0x1000);
    assert_eq!(allocator.bitmap_size_in_frames, 1);
    // The first usable region has room for the bitmap plus a spare frame,
    // so the bitmap sits at the very first frame.
    assert_eq!(allocator.bitmap_frame, 0);
    // The bitmap's own frame is taken.
    assert!(allocator.is_frame_allocated(0));
    // The rest of the low usable region is free.
    assert!(!allocator.is_frame_allocated(1));
    assert!(!allocator.is_frame_allocated(0x9F));
    // The reserved region is taken.
    assert!(allocator.is_frame_allocated(0xA0));
    assert!(allocator.is_frame_allocated(0xFF));
    // The high usable region is free.
    assert!(!allocator.is_frame_allocated(0x100));
    assert!(!allocator.is_frame_allocated(0x7FFF));
}

#[test]
fn first_allocation_returns_lowest_free_frame() {
    let mut allocator = BitMapFrameAllocator::new(&reference_map()).unwrap();
    // Frame 0 holds the bitmap, so the lowest free frame is 1.
    let frame = allocator.allocate_frame().unwrap();
    assert_eq!(frame.number, 1);
    assert_eq!(frame.address, 0x1000);
    assert!(allocator.is_frame_allocated(1));
}

#[test]
fn allocate_marks_and_deallocate_clears() {
    let mut allocator = BitMapFrameAllocator::new(&reference_map()).unwrap();
    let frame = allocator.allocate_frame().unwrap();
    assert!(allocator.is_frame_allocated(frame.number));
    allocator.deallocate_frame(frame);
    assert!(!allocator.is_frame_allocated(frame.number));
}

#[test]
fn allocation_scan_skips_marked_frames() {
    let mut allocator = BitMapFrameAllocator::new(&reference_map()).unwrap();
    allocator.mark_frame(1, true);
    allocator.mark_frame(2, true);
    allocator.mark_frame(3, true);
    let frame = allocator.allocate_frame().unwrap();
    assert_eq!(frame.number, 4);
    // Freeing a lower frame makes it the next candidate again.
    allocator.deallocate_frame(FrameInfo::from_number(2));
    let frame = allocator.allocate_frame().unwrap();
    assert_eq!(frame.number, 2);
}

#[test]
fn gaps_between_regions_are_allocated() {
    let map = vec![
        region(0, 0x100000, MemoryMapEntryType::Usable),
        region(0x200000, 0x240000, MemoryMapEntryType::Reserved),
        region(0x300000, 0x400000, MemoryMapEntryType::Usable),
    ];
    let allocator = BitMapFrameAllocator::new(&map).unwrap();
    assert_eq!(allocator.frames_amount, 0x400);
    assert_eq!(allocator.bitmap_frame, 0);
    assert!(allocator.is_frame_allocated(0));
    assert!(!allocator.is_frame_allocated(1));
    assert!(!allocator.is_frame_allocated(0xFF));
    // The gap between the first and second regions.
    assert!(allocator.is_frame_allocated(0x100));
    assert!(allocator.is_frame_allocated(0x1FF));
    // The reserved region itself.
    assert!(allocator.is_frame_allocated(0x200));
    assert!(allocator.is_frame_allocated(0x23F));
    // The gap between the second and third regions.
    assert!(allocator.is_frame_allocated(0x240));
    assert!(allocator.is_frame_allocated(0x2FF));
    // The final usable region is free.
    assert!(!allocator.is_frame_allocated(0x300));
    assert!(!allocator.is_frame_allocated(0x3FF));
}

#[test]
fn construction_fails_without_a_fitting_usable_region() {
    // No usable region at all.
    let map = vec![region(0x1000, 0x2000, MemoryMapEntryType::Reserved)];
    assert!(BitMapFrameAllocator::new(&map).is_none());
    // A usable region too small for the bitmap plus a spare frame.
    let map = vec![region(0, 0x1000, MemoryMapEntryType::Usable)];
    assert!(BitMapFrameAllocator::new(&map).is_none());
    // An empty map.
    let map: Vec<MemoryRegion> = Vec::new();
    assert!(BitMapFrameAllocator::new(&map).is_none());
}

#[test]
fn exhaustion_reports_none() {
    // 8 frames in total; the bitmap takes frame 0.
    let map = vec![region(0, 0x8000, MemoryMapEntryType::Usable)];
    let mut allocator = BitMapFrameAllocator::new(&map).unwrap();
    assert_eq!(allocator.frames_amount, 8);
    for expected in 1..8 {
        let frame = allocator.allocate_frame().unwrap();
        assert_eq!(frame.number, expected);
    }
    assert!(allocator.allocate_frame().is_none());
    allocator.deallocate_frame(FrameInfo::from_number(5));
    assert_eq!(allocator.allocate_frame().unwrap().number, 5);
}

#[test]
fn mark_region_covers_partial_frames() {
    let map = vec![region(0, 0x100000, MemoryMapEntryType::Usable)];
    let mut allocator = BitMapFrameAllocator::new(&map).unwrap();
    allocator.mark_region(0x5000, 0x7001, true);
    assert!(!allocator.is_frame_allocated(4));
    assert!(allocator.is_frame_allocated(5));
    assert!(allocator.is_frame_allocated(6));
    assert!(allocator.is_frame_allocated(7));
    assert!(!allocator.is_frame_allocated(8));
    allocator.mark_region(0x6000, 0x7000, false);
    assert!(allocator.is_frame_allocated(5));
    assert!(!allocator.is_frame_allocated(6));
    assert!(allocator.is_frame_allocated(7));
}

#[test]
fn frame_info_conversions() {
    let f = FrameInfo::from_address(0x5432);
    assert_eq!(f.number, 5);
    assert_eq!(f.address, 0x5432);
    let f = FrameInfo::from_number(7);
    assert_eq!(f.number, 7);
    assert_eq!(f.address, 0x7000);
}

#[test]
fn first_zero_bit_counts_trailing_ones() {
    assert_eq!(first_zero_bit(0b0000_0000), 0);
    assert_eq!(first_zero_bit(0b0000_0111), 3);
    assert_eq!(first_zero_bit(0b0111_1111), 7);
    assert_eq!(first_zero_bit(0b1111_1110), 0);
    assert_eq!(first_zero_bit(0b1101_1011), 2);
}

#[test]
fn ceil_division() {
    assert_eq!(ceil_div_usize(0, 5), 0);
    assert_eq!(ceil_div_usize(10, 5), 2);
    assert_eq!(ceil_div_usize(11, 5), 3);
    assert_eq!(ceil_div_u64(0x8000000, 4096), 0x8000);
    assert_eq!(ceil_div_u64(0x8000001, 4096), 0x8001);
}

#[test]
fn region_overlap() {
    assert!(mem_regions_overlap(0, 10, 10, 20));
    assert!(mem_regions_overlap(5, 30, 10, 20));
    assert!(!mem_regions_overlap(0, 9, 10, 20));
    assert!(!mem_regions_overlap(21, 30, 10, 20));
}

use kernel_mem::frame_allocator::{BitMapFrameAllocator, MemoryMapEntryType, MemoryRegion};
use kernel_mem::heap::{HeapError, LinkedListHeapAllocatorInner, LIST_HEAP_NODE_SIZE};
use kernel_mem::paging::PageTableSpace;
use kernel_mem::{FRAME_SIZE, HEAP_OFFSET, MAX_HEAP};

/// A 128 MiB machine with a recursive top-level table and a fresh heap
/// over the reference region below the kernel.
fn heap_setup() -> (LinkedListHeapAllocatorInner, PageTableSpace, BitMapFrameAllocator) {
    let map = vec![MemoryRegion {
        start_address: 0,
        end_address: 0x8000000,
        entry_type: MemoryMapEntryType::Usable,
    }];
    let mut allocator = BitMapFrameAllocator::new(&map).unwrap();
    let p4_frame = allocator.allocate_frame().unwrap();
    let mut space = PageTableSpace::new_top(p4_frame.number);
    space.install_recursive_entry();
    let inner = LinkedListHeapAllocatorInner::new(HEAP_OFFSET / FRAME_SIZE, MAX_HEAP);
    (inner, space, allocator)
}

#[test]
fn grow_by_one_page() {
    let (mut heap, mut space, mut allocator) = heap_setup();
    assert_eq!(heap.max_currently_used, 0);
    let p = heap.allocate(8, &mut space, &mut allocator).unwrap();
    // The first allocation starts at the base of the heap region.
    assert_eq!(p, HEAP_OFFSET);
    // The request was normalized up to the node size.
    assert_eq!(heap.max_currently_used, LIST_HEAP_NODE_SIZE);
    // One page was backed: a data frame plus the two intermediate tables
    // (the recursive entry stands in for the level-3 table). The frames
    // after the bitmap (0) and the top table (1) are now taken.
    assert!(allocator.is_frame_allocated(2));
    assert!(allocator.is_frame_allocated(3));
    assert!(allocator.is_frame_allocated(4));
    assert!(!allocator.is_frame_allocated(5));
    assert_eq!(space.frames.len(), 2);

    // A second small allocation stays inside the already-backed page.
    let p2 = heap.allocate(8, &mut space, &mut allocator).unwrap();
    assert_eq!(p2, HEAP_OFFSET + LIST_HEAP_NODE_SIZE);
    assert!(!allocator.is_frame_allocated(5));
}

#[test]
fn alloc_free_alloc_reuses_a_fitting_hole() {
    let (mut heap, mut space, mut allocator) = heap_setup();
    // 100 bytes leave room for the remainder node when 83 are reallocated.
    let p1 = heap.allocate(100, &mut space, &mut allocator).unwrap();
    assert_eq!(p1, HEAP_OFFSET);
    heap.dealloc(p1, 100);
    assert_eq!(heap.holes.len(), 1);
    assert_eq!(heap.hole_addresses[0], p1);
    assert_eq!(heap.holes[0].hole_size, 100);
    // The freed hole is the first fit: the same address comes back.
    let p2 = heap.allocate(83, &mut space, &mut allocator).unwrap();
    assert_eq!(p2, p1);
    assert_eq!(heap.hole_addresses[0], p1 + 83);
    assert_eq!(heap.holes[0].hole_size, 17);
    // The high-water mark did not move: the hole served the request.
    assert_eq!(heap.max_currently_used, 100);
}

#[test]
fn exact_refit_grows_instead_of_splitting() {
    let (mut heap, mut space, mut allocator) = heap_setup();
    let p1 = heap.allocate(256, &mut space, &mut allocator).unwrap();
    heap.dealloc(p1, 256);
    // A 256-byte hole cannot serve 256 bytes again: the remainder could
    // not hold a node, so the heap grows past the hole instead.
    let p2 = heap.allocate(256, &mut space, &mut allocator).unwrap();
    assert_eq!(p2, HEAP_OFFSET + 256);
    assert_eq!(heap.max_currently_used, 512);
    assert_eq!(heap.holes.len(), 1);
    assert_eq!(heap.holes[0].hole_size, 256);
}

#[test]
fn coalescing_adjacent_frees() {
    let (mut heap, mut space, mut allocator) = heap_setup();
    let a = heap.allocate(256, &mut space, &mut allocator).unwrap();
    let b = heap.allocate(256, &mut space, &mut allocator).unwrap();
    let c = heap.allocate(256, &mut space, &mut allocator).unwrap();
    assert_eq!(b, a + 256);
    assert_eq!(c, b + 256);
    heap.dealloc(a, 256);
    heap.dealloc(b, 256);
    heap.dealloc(c, 256);
    // Freeing three adjacent blocks in address order leaves one hole.
    assert_eq!(heap.holes.len(), 1);
    assert_eq!(heap.hole_addresses[0], a);
    assert_eq!(heap.holes[0].hole_size, 768);
    assert!(heap.holes[0].is_last);
}

#[test]
fn bridging_free_merges_both_neighbours() {
    let (mut heap, mut space, mut allocator) = heap_setup();
    let a = heap.allocate(256, &mut space, &mut allocator).unwrap();
    let b = heap.allocate(256, &mut space, &mut allocator).unwrap();
    let c = heap.allocate(256, &mut space, &mut allocator).unwrap();
    heap.dealloc(a, 256);
    heap.dealloc(c, 256);
    // Two separate holes, linked in address order.
    assert_eq!(heap.holes.len(), 2);
    assert_eq!(heap.hole_addresses[0], a);
    assert_eq!(heap.hole_addresses[1], c);
    assert!(!heap.holes[0].is_last);
    assert_eq!(heap.holes[0].next_node, c);
    assert!(heap.holes[1].is_last);
    // Freeing the middle block bridges them into one hole.
    heap.dealloc(b, 256);
    assert_eq!(heap.holes.len(), 1);
    assert_eq!(heap.hole_addresses[0], a);
    assert_eq!(heap.holes[0].hole_size, 768);
}

#[test]
fn free_below_a_hole_merges_downwards() {
    let (mut heap, mut space, mut allocator) = heap_setup();
    let a = heap.allocate(256, &mut space, &mut allocator).unwrap();
    let b = heap.allocate(256, &mut space, &mut allocator).unwrap();
    let _c = heap.allocate(256, &mut space, &mut allocator).unwrap();
    heap.dealloc(b, 256);
    heap.dealloc(a, 256);
    // The second free abuts the hole from below: one hole at `a`.
    assert_eq!(heap.holes.len(), 1);
    assert_eq!(heap.hole_addresses[0], a);
    assert_eq!(heap.holes[0].hole_size, 512);
}

#[test]
fn maximum_heap_size_is_fatal() {
    let map = vec![MemoryRegion {
        start_address: 0,
        end_address: 0x8000000,
        entry_type: MemoryMapEntryType::Usable,
    }];
    let mut allocator = BitMapFrameAllocator::new(&map).unwrap();
    let p4_frame = allocator.allocate_frame().unwrap();
    let mut space = PageTableSpace::new_top(p4_frame.number);
    space.install_recursive_entry();
    // A heap capped at one page.
    let mut heap = LinkedListHeapAllocatorInner::new(HEAP_OFFSET / FRAME_SIZE, 4096);
    let r = heap.allocate(5000, &mut space, &mut allocator);
    assert_eq!(r, Err(HeapError::MaximumHeapSizeReached));
    assert_eq!(heap.max_currently_used, 0);
    // A request that fits the cap still works.
    let p = heap.allocate(100, &mut space, &mut allocator).unwrap();
    assert_eq!(p, HEAP_OFFSET);
}

#[test]
fn heap_does_not_shrink_on_free() {
    let (mut heap, mut space, mut allocator) = heap_setup();
    let p = heap.allocate(8192, &mut space, &mut allocator).unwrap();
    assert_eq!(heap.max_currently_used, 8192);
    heap.dealloc(p, 8192);
    // The frames stay mapped and the high-water mark stays put.
    assert_eq!(heap.max_currently_used, 8192);
    assert_eq!(heap.holes.len(), 1);
    assert_eq!(heap.holes[0].hole_size, 8192);
}

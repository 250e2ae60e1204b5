use kernel_mem::frame_allocator::{BitMapFrameAllocator, FrameInfo, MemoryMapEntryType, MemoryRegion};
use kernel_mem::paging::{
    Entry, EntryFlags, EntryTable, MapError, PageInfo, PageTableSpace, TableAccess,
    ENTRY_HUGE_PAGE, ENTRY_PRESENT, ENTRY_WRITABLE,
};
use kernel_mem::{FRAME_SIZE, KERNEL_OFFSET};

fn region(start: u64, end: u64, entry_type: MemoryMapEntryType) -> MemoryRegion {
    MemoryRegion { start_address: start, end_address: end, entry_type }
}

/// A 128 MiB machine: a frame allocator over one usable region, and a
/// fresh top-level table with the recursive entry installed.
fn boot_setup() -> (BitMapFrameAllocator, PageTableSpace) {
    let map = vec![region(0, 0x8000000, MemoryMapEntryType::Usable)];
    let mut allocator = BitMapFrameAllocator::new(&map).unwrap();
    let p4_frame = allocator.allocate_frame().unwrap();
    let mut space = PageTableSpace::new_top(p4_frame.number);
    space.install_recursive_entry();
    (allocator, space)
}

#[test]
fn page_indices_of_the_kernel_base() {
    let page = PageInfo::from_address(KERNEL_OFFSET);
    assert_eq!(page.number, 0xFFFFFFFF80000);
    assert_eq!(page.p4_index(), 511);
    assert_eq!(page.p3_index(), 510);
    assert_eq!(page.p2_index(), 0);
    assert_eq!(page.p1_index(), 0);
}

#[test]
fn page_info_conversions() {
    let page = PageInfo::from_address(0xdeadb123);
    assert_eq!(page.number, 0xdeadb);
    assert_eq!(page.address, 0xdeadb000);
    let page = PageInfo::from_number(0x1234);
    assert_eq!(page.address, 0x1234000);
    assert_eq!(page.p1_index(), 0x34);
    assert_eq!(page.p2_index(), 0x9);
}

#[test]
fn entry_encoding_round_trip() {
    let mut e = Entry(0);
    assert!(e.is_unused());
    assert!(e.pointed_frame().is_none());
    e.write(
        FrameInfo::from_address(0x2000),
        EntryFlags(ENTRY_PRESENT | ENTRY_WRITABLE),
    );
    assert_eq!(e.0, 0x2003);
    assert!(!e.is_unused());
    assert_eq!(e.read_address(), 0x2000);
    assert!(e.get_flags().contains(EntryFlags(ENTRY_PRESENT)));
    assert!(!e.get_flags().contains(EntryFlags(ENTRY_HUGE_PAGE)));
    let pointed = e.pointed_frame().unwrap();
    assert_eq!(pointed.number, 2);
    assert_eq!(pointed.address, 0x2000);
    e.set_unused();
    assert!(e.is_unused());
}

#[test]
fn entry_flags_operations() {
    let flags = EntryFlags(ENTRY_PRESENT).union(EntryFlags(ENTRY_WRITABLE));
    assert_eq!(flags.bits(), 3);
    assert!(flags.contains(EntryFlags(ENTRY_PRESENT)));
    assert!(!flags.contains(EntryFlags(ENTRY_HUGE_PAGE)));
}

#[test]
fn recursive_next_entry_address() {
    let mut table = EntryTable::new_zeroed();
    table.entries[5] = Entry(0x30000 | ENTRY_PRESENT | ENTRY_WRITABLE);
    let base: u64 = 0xFFFFFFFFFFFFF000;
    let next = table.next_entry_address_recursive(base, 5);
    assert_eq!(next, Some((base << 9) | (5u64 << 12)));
    // An absent entry yields no address.
    assert_eq!(table.next_entry_address_recursive(base, 6), None);
    // A huge-page entry is not a table and yields no address.
    table.entries[7] = Entry(0x40000 | ENTRY_PRESENT | ENTRY_HUGE_PAGE);
    assert_eq!(table.next_entry_address_recursive(base, 7), None);
}

#[test]
fn map_then_remap_without_consent_fails() {
    let (mut allocator, mut space) = boot_setup();
    let page = PageInfo::from_number(5);
    let first = space.p4_map(
        FrameInfo::from_number(0x100),
        page,
        EntryFlags(ENTRY_PRESENT | ENTRY_WRITABLE),
        false,
        false,
        TableAccess::Identity,
        &mut allocator,
    );
    assert_eq!(first, Ok(None));
    // The same page again, overwrite not allowed: the entry is kept.
    let second = space.p4_map(
        FrameInfo::from_number(0x200),
        page,
        EntryFlags(ENTRY_PRESENT | ENTRY_WRITABLE),
        false,
        false,
        TableAccess::Identity,
        &mut allocator,
    );
    assert_eq!(second, Err(MapError::EntryOverwrite));
    // With consent and invalidation requested, the changed virtual address
    // is handed back for the TLB flush.
    let third = space.p4_map(
        FrameInfo::from_number(0x200),
        page,
        EntryFlags(ENTRY_PRESENT | ENTRY_WRITABLE),
        true,
        true,
        TableAccess::Identity,
        &mut allocator,
    );
    assert_eq!(third, Ok(Some(page.address)));
}

#[test]
fn mapping_distinct_pages_succeeds() {
    let (mut allocator, mut space) = boot_setup();
    for n in 0..16u64 {
        let r = space.p4_map(
            FrameInfo::from_number(0x100 + n),
            PageInfo::from_number(n),
            EntryFlags(ENTRY_PRESENT | ENTRY_WRITABLE),
            false,
            false,
            TableAccess::Identity,
            &mut allocator,
        );
        assert_eq!(r, Ok(None));
    }
    // All sixteen pages share one path, so exactly three tables were
    // created below the top: levels 3, 2 and 1.
    assert_eq!(space.frames.len(), 3);
}

#[test]
fn mapping_through_the_recursive_slot() {
    let (mut allocator, mut space) = boot_setup();
    // A page in the upper half whose walk passes the recursive entry.
    let page = PageInfo::from_address(KERNEL_OFFSET);
    let r = space.p4_map(
        FrameInfo::from_number(0x100),
        page,
        EntryFlags(ENTRY_PRESENT | ENTRY_WRITABLE),
        false,
        false,
        TableAccess::Recursive,
        &mut allocator,
    );
    assert_eq!(r, Ok(None));
    // The top table served as its own level-3 table: only levels 2 and 1
    // were created.
    assert_eq!(space.frames.len(), 2);
}

#[test]
fn identity_map_covers_the_bitmap() {
    let (mut allocator, mut space) = boot_setup();
    let r = allocator.identity_map(&mut space, false, TableAccess::Identity);
    assert_eq!(r, Ok(()));
    // Remapping the same frames without consent must fail on the first one.
    let r = allocator.identity_map(&mut space, false, TableAccess::Identity);
    assert_eq!(r, Err(MapError::EntryOverwrite));
}

#[test]
fn kernel_remap_runs_the_reference_plan() {
    let map = vec![
        region(0, 0x100000, MemoryMapEntryType::Usable),
        region(0x100000, 0x102000, MemoryMapEntryType::Kernel),
        region(0x102000, 0x200000, MemoryMapEntryType::Usable),
        region(0x200000, 0x240000, MemoryMapEntryType::Reserved),
        region(0x240000, 0x8000000, MemoryMapEntryType::Usable),
    ];
    let mut allocator = BitMapFrameAllocator::new(&map).unwrap();
    let p4_frame = allocator.allocate_frame().unwrap();
    let mut space = PageTableSpace::new_top(p4_frame.number);
    space.install_recursive_entry();
    let r = space.p4_kernel_remap(&map, &mut allocator);
    assert_eq!(r, Ok(()));
    // Mapping the VGA buffer again without consent fails: the remap
    // already installed it.
    let r = space.p4_map(
        FrameInfo::from_address(0xb8000),
        PageInfo::from_address(0xb8000),
        EntryFlags(ENTRY_PRESENT | ENTRY_WRITABLE),
        false,
        false,
        TableAccess::Identity,
        &mut allocator,
    );
    assert_eq!(r, Err(MapError::EntryOverwrite));
}

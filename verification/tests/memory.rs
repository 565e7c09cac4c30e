use nanoos::addr::{Page, PhysicalAddress, PhysicalFrame, VirtualAddress};
use nanoos::boot::{boot_physical_memory, from_memory_map, MemoryMapEntry, MEMORY_TYPE_USABLE};
use nanoos::frames::FrameAllocator;
use nanoos::paging::{ActivePageTable, MapError, PageTable, PageTableEntry, PAGE_PRESENT};
use nanoos::tracker::{Range, RangeSet};

fn usable(address: u64, length: u64) -> MemoryMapEntry {
    MemoryMapEntry { address, length, entry_type: MEMORY_TYPE_USABLE, extra: 0 }
}

fn reserved(address: u64, length: u64) -> MemoryMapEntry {
    MemoryMapEntry { address, length, entry_type: 2, extra: 0 }
}

fn sentinel() -> MemoryMapEntry {
    MemoryMapEntry { address: 0, length: 0, entry_type: 0, extra: 0 }
}

#[test]
fn empty_tracker_has_nothing() {
    let mut rs = RangeSet::new();
    assert_eq!(rs.sum(), Some(0));
    assert_eq!(rs.allocate(4096, 4096), None);
}

#[test]
fn insert_merges_adjacent_and_overlapping() {
    let mut rs = RangeSet::new();
    rs.insert(Range { start: 0, end: 9 });
    rs.insert(Range { start: 20, end: 29 });
    assert_eq!(rs.ranges().len(), 2);
    assert_eq!(rs.sum(), Some(20));
    // Touches both neighbours: all three merge into one range.
    rs.insert(Range { start: 10, end: 19 });
    assert_eq!(rs.ranges().len(), 1);
    assert_eq!(rs.ranges()[0].start, 0);
    assert_eq!(rs.ranges()[0].end, 29);
    assert_eq!(rs.sum(), Some(30));
}

#[test]
fn insert_same_range_twice_changes_nothing() {
    let mut rs = RangeSet::new();
    rs.insert(Range { start: 0x1000, end: 0x1fff });
    let once = rs.sum();
    rs.insert(Range { start: 0x1000, end: 0x1fff });
    assert_eq!(rs.sum(), once);
    assert_eq!(rs.sum(), Some(0x1000));
    assert_eq!(rs.ranges().len(), 1);
}

#[test]
fn remove_splits_a_range() {
    let mut rs = RangeSet::new();
    rs.insert(Range { start: 0, end: 99 });
    rs.remove(Range { start: 10, end: 19 });
    assert_eq!(rs.sum(), Some(90));
    assert_eq!(rs.ranges().len(), 2);
    assert_eq!(rs.ranges()[0].end, 9);
    assert_eq!(rs.ranges()[1].start, 20);
}

#[test]
fn remove_outside_is_a_no_op() {
    let mut rs = RangeSet::new();
    rs.insert(Range { start: 100, end: 199 });
    rs.remove(Range { start: 300, end: 399 });
    assert_eq!(rs.sum(), Some(100));
}

#[test]
fn allocate_respects_alignment() {
    let mut rs = RangeSet::new();
    rs.insert(Range { start: 5, end: 0x5000 });
    let a = rs.allocate(100, 256).unwrap();
    assert_eq!(a % 256, 0);
    assert_eq!(a, 256);
}

#[test]
fn allocate_takes_the_lowest_fit() {
    let mut rs = RangeSet::new();
    rs.insert(Range { start: 0x3000, end: 0x3fff });
    rs.insert(Range { start: 0x1000, end: 0x10ff });
    assert_eq!(rs.allocate(0x100, 0x100), Some(0x1000));
    // The small range is used up; the next fit is the higher range.
    assert_eq!(rs.allocate(0x100, 0x100), Some(0x3000));
}

#[test]
fn allocate_fails_when_nothing_fits() {
    let mut rs = RangeSet::new();
    rs.insert(Range { start: 0, end: 9 });
    assert_eq!(rs.allocate(11, 1), None);
    assert_eq!(rs.allocate(0, 1), None);
    assert_eq!(rs.allocate(1, 0), None);
    assert_eq!(rs.allocate(10, 1), Some(0));
    assert_eq!(rs.allocate(1, 1), None);
}

#[test]
fn allocation_conserves_bytes() {
    let mut rs = RangeSet::new();
    rs.insert(Range { start: 0x100000, end: 0x1fffff });
    let before = rs.sum().unwrap();
    let a = rs.allocate(4096, 4096).unwrap();
    assert_eq!(rs.sum().unwrap(), before - 4096);
    // Returning the block restores the total exactly.
    rs.insert(Range { start: a, end: a + 4095 });
    assert_eq!(rs.sum().unwrap(), before);
}

#[test]
fn boot_map_scenario() {
    let entries = vec![usable(0x0, 0x9fc00), usable(0x100000, 0xff00000)];
    let rs = from_memory_map(&entries);
    assert_eq!(rs.sum(), Some(0x9fc00 + 0xff00000));
    let mut rs = boot_physical_memory(&entries);
    assert_eq!(rs.sum(), Some(0xff00000));
    // The lowest allocatable address sits right at the carve-out boundary.
    assert_eq!(rs.allocate(4096, 4096), Some(0x100000));
}

#[test]
fn boot_map_stops_at_sentinel() {
    let entries = vec![usable(0x0, 0x1000), sentinel(), usable(0x100000, 0x1000)];
    let rs = from_memory_map(&entries);
    assert_eq!(rs.sum(), Some(0x1000));
}

#[test]
fn boot_map_skips_reserved_entries() {
    let entries = vec![usable(0x0, 0x1000), reserved(0x2000, 0x1000)];
    let rs = from_memory_map(&entries);
    assert_eq!(rs.sum(), Some(0x1000));
}

#[test]
fn carve_out_blocks_low_allocations() {
    let entries = vec![usable(0x0, 0x9fc00), usable(0x100000, 0x200000)];
    let mut rs = boot_physical_memory(&entries);
    for _ in 0..16 {
        match rs.allocate(4096, 4096) {
            Some(a) => assert!(a >= 0x100000),
            None => break,
        }
    }
}

#[test]
fn allocate_frame_takes_the_lowest_free_frame() {
    // The post-carve-out state of the boot scenario, built by hand.
    let mut rs = RangeSet::new();
    rs.insert(Range { start: 0x0, end: 0x9fbff });
    rs.insert(Range { start: 0x100000, end: 0xfffffff });
    rs.remove(Range { start: 0x0, end: 0xfffff });
    let f = rs.allocate_frame().unwrap();
    assert_eq!(f, PhysicalFrame(0x100));
    // The next-lowest page follows.
    assert_eq!(rs.allocate_frame().unwrap(), PhysicalFrame(0x101));
}

#[test]
fn allocated_frames_are_distinct() {
    let entries = vec![usable(0x100000, 0x100000)];
    let mut rs = boot_physical_memory(&entries);
    let f1 = rs.allocate_frame().unwrap();
    let f2 = rs.allocate_frame().unwrap();
    assert_ne!(f1.0, f2.0);
}

#[test]
fn deallocate_frame_round_trip() {
    let entries = vec![usable(0x100000, 0x100000)];
    let mut rs = boot_physical_memory(&entries);
    let before = rs.sum().unwrap();
    let f = rs.allocate_frame().unwrap();
    assert_eq!(rs.sum().unwrap(), before - 4096);
    assert_eq!(rs.deallocate_frame(f), Some(()));
    assert_eq!(rs.sum().unwrap(), before);
}

#[test]
fn deallocate_frame_rejects_overflowing_frames() {
    let mut rs = RangeSet::new();
    assert_eq!(rs.deallocate_frame(PhysicalFrame(u64::MAX)), None);
    let sum = rs.sum();
    assert_eq!(sum, Some(0));
}

#[test]
fn frame_of_physical_address() {
    let f = PhysicalFrame::containing_address(PhysicalAddress(0x2abc));
    assert_eq!(f.0, 2);
}

#[test]
fn canonical_address_check() {
    assert!(!VirtualAddress(0x0000_8000_0000_0001).is_canonical());
    assert!(!VirtualAddress(0x0000_8000_0000_0000).is_canonical());
    assert!(VirtualAddress(0x0000_7fff_ffff_ffff).is_canonical());
    assert!(VirtualAddress(0xffff_8000_0000_0000).is_canonical());
    assert!(!VirtualAddress(0xffff_7fff_ffff_ffff).is_canonical());
    assert!(VirtualAddress(0xb8000).is_canonical());
}

#[test]
fn page_indices() {
    let page = Page::containing_address(VirtualAddress(0xffff_8000_0010_0000));
    assert_eq!(page.0, 0xffff_8000_0010_0000 / 4096);
    assert_eq!(page.p4_index(), 256);
    assert_eq!(page.p3_index(), 0);
    assert_eq!(page.p2_index(), 0);
    assert_eq!(page.p1_index(), 256);
}

#[test]
fn pointed_frame_decodes_present_entries() {
    let present = PageTableEntry(5 * 4096 | PAGE_PRESENT);
    assert_eq!(present.pointed_frame(), Some(PhysicalFrame(5)));
    let absent = PageTableEntry(5 * 4096);
    assert_eq!(absent.pointed_frame(), None);
}

#[test]
fn fresh_tables_are_clear() {
    let mut table = PageTable::new();
    assert_eq!(table.entry(0).0, 0);
    assert_eq!(table.entry(511).0, 0);
    assert_eq!(table.nonzero_entries().len(), 0);
    assert_eq!(table.next_table_address(0xffff_ffff_ffff_f000, 3), None);
    table.zero();
    assert_eq!(table.entry(0).0, 0);
}

#[test]
fn intermediate_tables_appear_on_demand() {
    let entries = vec![usable(0x100000, 0x400000)];
    let mut tracker = boot_physical_memory(&entries);
    let mut table = ActivePageTable::new(1);
    // Nothing links the root's slot 5 yet.
    assert_eq!(table.next_table(0, 5), None);
    let t3 = table.next_table_create(0, 5, &mut tracker).unwrap();
    // The created table is now linked, and creating again reuses it.
    assert_eq!(table.next_table(0, 5), Some(t3));
    assert_eq!(table.next_table_create(0, 5, &mut tracker), Ok(t3));
    assert_eq!(table.next_table(t3, 7), None);
}

#[test]
fn map_then_translate_round_trip() {
    let entries = vec![usable(0x100000, 0x400000)];
    let mut tracker = boot_physical_memory(&entries);
    let mut table = ActivePageTable::new(1);

    let address = VirtualAddress(0xffff_8000_0010_0000);
    assert_eq!(table.translate(address), None);

    let page = Page::containing_address(address);
    let frame = tracker.allocate_frame().unwrap();
    assert_eq!(table.map_to(page, frame, 0, &mut tracker), Ok(()));

    // The mapped address translates to the frame base, offset for offset.
    let base = table.translate(address).unwrap();
    assert_eq!(base.0, frame.0 * 4096);
    let shifted = table.translate(VirtualAddress(address.0 + 123)).unwrap();
    assert_eq!(shifted.0, frame.0 * 4096 + 123);

    // A page that was never mapped still misses.
    assert_eq!(table.translate(VirtualAddress(0xffff_8000_2000_0000)), None);

    // The mapped page's slot is taken now; its neighbour is still open.
    assert!(!table.can_map_page(page));
    assert!(table.can_map_page(Page::containing_address(VirtualAddress(address.0 + 4096))));
}

#[test]
fn translate_page_finds_the_frame() {
    let entries = vec![usable(0x100000, 0x400000)];
    let mut tracker = boot_physical_memory(&entries);
    let mut table = ActivePageTable::new(1);
    let page = Page::containing_address(VirtualAddress(0x40_0000));
    let frame = tracker.allocate_frame().unwrap();
    assert_eq!(table.map_to(page, frame, 0, &mut tracker), Ok(()));
    assert_eq!(table.translate_page(page), Some(frame));
}

#[test]
fn map_installs_the_requested_flags() {
    let entries = vec![usable(0x100000, 0x400000)];
    let mut tracker = boot_physical_memory(&entries);
    let mut table = ActivePageTable::new(1);
    let page = Page::containing_address(VirtualAddress(0xffff_8000_0010_0000));
    let frame = tracker.allocate_frame().unwrap();
    let flags = nanoos::paging::PAGE_WRITE | nanoos::paging::PAGE_USER;
    assert_eq!(table.map_to(page, frame, flags, &mut tracker), Ok(()));

    // Follow the created links down to the leaf slot and read the word.
    let t3 = table.next_table(0, page.p4_index()).unwrap();
    let t2 = table.next_table(t3, page.p3_index()).unwrap();
    let t1 = table.next_table(t2, page.p2_index()).unwrap();
    let leaf = table.table_entry(t1, page.p1_index());
    assert_eq!(leaf, frame.0 * 4096 | PAGE_PRESENT | flags);

    // The intermediate links themselves are present and writable.
    let root_link = table.table_entry(0, page.p4_index());
    assert_eq!(root_link & 0xfff, PAGE_PRESENT | nanoos::paging::PAGE_WRITE);
}

#[test]
fn mapping_over_a_complete_path_allocates_nothing() {
    let entries = vec![usable(0x100000, 0x400000)];
    let mut tracker = boot_physical_memory(&entries);
    let mut table = ActivePageTable::new(1);
    let first = Page::containing_address(VirtualAddress(0xffff_8000_0010_0000));
    let f1 = tracker.allocate_frame().unwrap();
    assert_eq!(table.map_to(first, f1, 0, &mut tracker), Ok(()));
    // Three intermediate tables and the mapped frame are gone from the
    // free set, and nothing else.
    let free_after_first = tracker.sum().unwrap();
    assert_eq!(free_after_first, 0x400000 - 4 * 4096);

    // The neighbouring page shares the whole path: no new table.
    let second = Page::containing_address(VirtualAddress(0xffff_8000_0010_1000));
    let f2 = tracker.allocate_frame().unwrap();
    assert_eq!(table.map_to(second, f2, 0, &mut tracker), Ok(()));
    assert_eq!(tracker.sum().unwrap(), free_after_first - 4096);
}

#[test]
fn map_fails_without_frames() {
    let mut tracker = RangeSet::new();
    let mut table = ActivePageTable::new(1);
    let page = Page::containing_address(VirtualAddress(0x40_0000));
    let r = table.map_to(page, PhysicalFrame(0x300), 0, &mut tracker);
    assert_eq!(r, Err(MapError::OutOfFrames));
}

#[test]
fn root_table_reflects_the_mapping() {
    let entries = vec![usable(0x100000, 0x400000)];
    let mut tracker = boot_physical_memory(&entries);
    let mut table = ActivePageTable::new(1);
    let page = Page::containing_address(VirtualAddress(0xffff_8000_0010_0000));
    let frame = tracker.allocate_frame().unwrap();
    assert_eq!(table.map_to(page, frame, 0, &mut tracker), Ok(()));

    let root = table.p4();
    let set = root.nonzero_entries();
    assert_eq!(set.len(), 1);
    assert_eq!(set[0].0, page.p4_index());
    assert_eq!(set[0].1 & PAGE_PRESENT, PAGE_PRESENT);

    // The recursive-mapping address arithmetic for the root's slot.
    let root_address = 0xffff_ffff_ffff_f000usize;
    let expected = (root_address << 9) | (page.p4_index() << 12);
    assert_eq!(root.next_table_address(root_address, page.p4_index()), Some(expected));
    assert_eq!(root.next_table_address(root_address, page.p4_index() + 1), None);
}

use op_sys::frame_allocator::{
    frame_in_skipped_region, iter_usable_memory, map_is_addressable, AddressRange, BootInfoFrameAllocator, Frame,
};
use op_sys::memory::{heap_region, heap_region_fits_map, MemoryDescriptor};

fn entry(ty: u32, phys_start: u64, page_count: u64) -> MemoryDescriptor {
    MemoryDescriptor { ty, phys_start, page_count }
}

#[test]
fn heap_region_takes_last_large_conventional_entry() {
    let map = vec![
        entry(7, 0x10_0000, 200),
        entry(7, 0x100_0000, 100),
        entry(7, 0x200_0000, 128),
        entry(4, 0x300_0000, 1000),
    ];
    assert_eq!(heap_region(&map), Some((0x200_0000, 0x200_0000 + 4096 * 128)));
}

#[test]
fn heap_region_none_without_candidate() {
    let map = vec![entry(7, 0x10_0000, 127), entry(2, 0x20_0000, 4096)];
    assert_eq!(heap_region(&map), None);
    assert_eq!(heap_region(&vec![]), None);
}

#[test]
fn frames_come_in_map_order() {
    let map = vec![entry(7, 0x1000, 2), entry(3, 0x10_0000, 5), entry(7, 0x20_0000, 1)];
    let mut frames = iter_usable_memory(map);
    assert_eq!(frames.next(), Some(Frame { start_address: 0x1000 }));
    assert_eq!(frames.next(), Some(Frame { start_address: 0x2000 }));
    assert_eq!(frames.next(), Some(Frame { start_address: 0x20_0000 }));
    assert_eq!(frames.next(), None);
    assert_eq!(frames.next(), None);
}

#[test]
fn entry_at_address_zero_is_skipped() {
    let map = vec![entry(7, 0, 4), entry(7, 0x5000, 1)];
    let mut frames = iter_usable_memory(map);
    assert_eq!(frames.next(), Some(Frame { start_address: 0x5000 }));
    assert_eq!(frames.next(), None);
}

#[test]
fn unaligned_entry_frames_are_rounded_down() {
    let map = vec![entry(7, 0x1234, 2)];
    let mut frames = iter_usable_memory(map);
    assert_eq!(frames.next(), Some(Frame { start_address: 0x1000 }));
    assert_eq!(frames.next(), Some(Frame { start_address: 0x2000 }));
    assert_eq!(frames.next(), None);
}

#[test]
fn allocator_hands_out_each_frame_once() {
    let map = vec![entry(7, 0x1000, 3), entry(1, 0x8000, 2), entry(7, 0x10000, 2)];
    let skip = vec![AddressRange { start: 0x1000, end: 0x2000 }];
    let mut a = BootInfoFrameAllocator::new(map, skip);
    let mut seen = Vec::new();
    while let Some(f) = a.allocate_frame() {
        assert_eq!(f.start_address % 4096, 0);
        assert!(!seen.contains(&f.start_address));
        seen.push(f.start_address);
    }
    assert_eq!(seen, vec![0x2000, 0x3000, 0x10000, 0x11000]);
    assert_eq!(a.allocate_frame(), None);
}

#[test]
fn allocator_on_empty_map_has_nothing() {
    let mut a = BootInfoFrameAllocator::new(vec![], vec![]);
    assert_eq!(a.allocate_frame(), None);
}

#[test]
fn heap_region_fits_map_detects_overflow() {
    assert!(heap_region_fits_map(&vec![entry(7, 0x1000, 200)]));
    assert!(!heap_region_fits_map(&vec![entry(7, u64::MAX - 4096, 200)]));
    assert!(heap_region_fits_map(&vec![entry(7, u64::MAX - 4096, 200), entry(7, 0, 128)]));
    assert!(heap_region_fits_map(&vec![]));
}

#[test]
fn map_is_addressable_checks_usable_entries() {
    assert!(map_is_addressable(&vec![entry(7, 0x1000, 10)]));
    assert!(!map_is_addressable(&vec![entry(7, 0x10_0000_0000_0000, 1)]));
    assert!(map_is_addressable(&vec![entry(7, 0x0F_FFFF_FFFF_F000, 1)]));
    assert!(!map_is_addressable(&vec![entry(7, u64::MAX - 4095, 2)]));
    assert!(map_is_addressable(&vec![entry(5, 0x10_0000_0000_0000, 1), entry(7, 0, u64::MAX)]));
}

#[test]
fn allocator_keeps_back_frame_starting_in_skipped_region() {
    let map = vec![entry(7, 0x1000, 2)];
    let skip = vec![AddressRange { start: 0x1000, end: 0x1800 }];
    let mut a = BootInfoFrameAllocator::new(map, skip);
    assert_eq!(a.allocate_frame(), Some(Frame { start_address: 0x2000 }));
    assert_eq!(a.allocate_frame(), None);
    assert_eq!(a.allocate_frame(), None);
}

#[test]
fn allocator_keeps_back_frame_ending_in_skipped_region() {
    let map = vec![entry(7, 0x1000, 4)];
    let skip = vec![AddressRange { start: 0x3000, end: 0x3001 }];
    let mut a = BootInfoFrameAllocator::new(map, skip);
    assert_eq!(a.allocate_frame(), Some(Frame { start_address: 0x1000 }));
    assert_eq!(a.allocate_frame(), Some(Frame { start_address: 0x4000 }));
    assert_eq!(a.allocate_frame(), None);
}

#[test]
fn allocator_skipping_everything_has_nothing() {
    let map = vec![entry(7, 0x1000, 4)];
    let skip = vec![AddressRange { start: 0, end: 0x10_0000 }];
    let mut a = BootInfoFrameAllocator::new(map, skip);
    assert_eq!(a.allocate_frame(), None);
}

#[test]
fn frame_in_skipped_region_tests_start_and_end() {
    let skip = vec![AddressRange { start: 0x4000, end: 0x5000 }, AddressRange { start: 0x9000, end: 0x9001 }];
    assert!(frame_in_skipped_region(&skip, 0x4000));
    assert!(!frame_in_skipped_region(&skip, 0x5000));
    assert!(frame_in_skipped_region(&skip, 0x3000));
    assert!(frame_in_skipped_region(&skip, 0x8000));
    assert!(!frame_in_skipped_region(&skip, 0x2000));
    assert!(!frame_in_skipped_region(&vec![], 0x4000));
    assert!(!frame_in_skipped_region(&skip, u64::MAX));
}

use os_rust_demo::EmptyFrameAllocator;

#[test]
fn empty_frame_allocator_has_nothing() {
    let mut f = EmptyFrameAllocator;
    assert_eq!(f.allocate_frame(), None);
    assert_eq!(f.allocate_frame(), None);
}

use os_rust_demo::{usable_frame, MemoryRegion};

fn region(start: u64, end: u64, usable: bool) -> MemoryRegion {
    MemoryRegion { start, end, usable }
}

#[test]
fn usable_frames_in_map_order() {
    let map = [
        region(0, 0x1000, false),
        region(0x1000, 0x3000, true),
        region(0x3000, 0x8000, false),
        region(0x8000, 0xb000, true),
        region(0xb000, 0xb000, true),
        region(0x10000, 0x10800, true),
    ];
    assert_eq!(usable_frame(&map, 0), Some(0x1000));
    assert_eq!(usable_frame(&map, 1), Some(0x2000));
    assert_eq!(usable_frame(&map, 2), Some(0x8000));
    assert_eq!(usable_frame(&map, 4), Some(0xa000));
    assert_eq!(usable_frame(&map, 5), Some(0x10000));
    assert_eq!(usable_frame(&map, 6), None);
    assert_eq!(usable_frame(&map, usize::MAX), None);
    assert_eq!(usable_frame(&[], 0), None);
}

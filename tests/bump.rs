use os_rust_demo::{align_up, BumpAllocator};

const A: usize = 0x4444_4444_0000;

fn heap(start: usize, size: usize) -> BumpAllocator {
    let mut b = BumpAllocator::new();
    b.init(start, size);
    b
}

#[test]
fn bump_new_is_empty() {
    let mut b = BumpAllocator::new();
    assert!(!b.is_initialized());
    assert_eq!(b.live_count(), 0);
    assert_eq!(b.allocate(8, 8), None);
    b.init(A, 64);
    assert!(b.is_initialized());
    assert_eq!(b.allocate(8, 8), Some(A));
}

#[test]
fn bump_concrete_scenario() {
    let mut b = heap(A, 4096);
    assert_eq!(b.allocate(100, 8), Some(A));
    assert_eq!(b.allocate(4000, 8), None);
    b.release(A, 100, 8);
    assert_eq!(b.live_count(), 0);
    assert_eq!(b.allocate(4000, 8), Some(A));
}

#[test]
fn bump_blocks_do_not_overlap() {
    let mut b = heap(A + 3, 1000);
    let reqs = [(10usize, 1usize), (7, 8), (1, 64), (0, 16), (33, 4), (100, 32)];
    let mut blocks: Vec<(usize, usize)> = Vec::new();
    for (size, align) in reqs {
        let p = b.allocate(size, align).unwrap();
        assert_eq!(p % align, 0);
        blocks.push((p, p + size));
    }
    for (i, x) in blocks.iter().enumerate() {
        assert!(x.0 >= A + 3 && x.1 <= A + 1003);
        for (j, y) in blocks.iter().enumerate() {
            if i != j {
                assert!(x.1 <= y.0 || y.1 <= x.0);
            }
        }
    }
    assert_eq!(blocks[1].0, A + 16);
    assert_eq!(blocks[2].0, A + 64);
}

#[test]
fn bump_epoch_reset_after_all_released() {
    let start = A + 3;
    let mut b = heap(start, 512);
    let p1 = b.allocate(10, 4).unwrap();
    let p2 = b.allocate(20, 8).unwrap();
    let p3 = b.allocate(30, 16).unwrap();
    assert_eq!(b.live_count(), 3);
    b.release(p2, 20, 8);
    b.release(p3, 30, 16);
    assert_eq!(b.live_count(), 1);
    b.release(p1, 10, 4);
    assert_eq!(b.live_count(), 0);
    assert_eq!(b.allocate(5, 32), Some(align_up(start, 32)));
}

#[test]
fn bump_partial_release_does_not_reuse() {
    let mut b = heap(A, 256);
    let p1 = b.allocate(64, 8).unwrap();
    let p2 = b.allocate(64, 8).unwrap();
    b.release(p1, 64, 8);
    let p3 = b.allocate(64, 8).unwrap();
    assert_eq!(p3, p2 + 64);
    assert_eq!(b.allocate(128, 8), None);
}

#[test]
fn bump_exhaustion_keeps_state() {
    let mut b = heap(A, 128);
    assert_eq!(b.allocate(100, 8), Some(A));
    assert_eq!(b.live_count(), 1);
    assert_eq!(b.allocate(29, 1), None);
    assert_eq!(b.allocate(usize::MAX, 1), None);
    assert_eq!(b.live_count(), 1);
    assert_eq!(b.allocate(28, 1), Some(A + 100));
    assert_eq!(b.allocate(0, 1), Some(A + 128));
    assert_eq!(b.allocate(1, 1), None);
}

use os_rust_demo::LinkedListAllocator;

const A: usize = 0x5555_5555_0000;

fn heap(start: usize, size: usize) -> LinkedListAllocator {
    let mut l = LinkedListAllocator::new();
    l.init(start, size);
    l
}

#[test]
fn list_before_init_fails() {
    let mut l = LinkedListAllocator::new();
    assert!(!l.is_initialized());
    assert_eq!(l.allocate(8, 8), None);
}

#[test]
fn list_concrete_scenario() {
    let mut l = heap(A, 4096);
    assert!(l.is_initialized());
    assert_eq!(l.allocate(100, 8), Some(A));
    assert_eq!(l.allocate(4000, 8), None);
    l.release(A, 100, 8);
    // the released block and the rest of the heap stay two regions
    assert_eq!(l.allocate(4000, 8), None);
    assert_eq!(l.allocate(3992, 8), Some(A + 104));
    assert_eq!(l.allocate(100, 8), Some(A));
}

#[test]
fn list_round_trip() {
    let mut l = heap(A, 1024);
    let p = l.allocate(64, 16).unwrap();
    l.release(p, 64, 16);
    assert_eq!(l.allocate(64, 16), Some(p));
    l.release(p, 64, 16);
    assert_eq!(l.allocate(48, 8), Some(p));
    assert_eq!(l.allocate(16, 8), Some(p + 48));
}

#[test]
fn list_round_trip_small_leftover_refused() {
    let mut l = heap(A, 24);
    assert_eq!(l.allocate(24, 8), Some(A));
    l.release(A, 24, 8);
    assert_eq!(l.allocate(16, 8), None);
    assert_eq!(l.allocate(24, 8), Some(A));
}

#[test]
fn list_no_coalescing() {
    let mut l = heap(A, 64);
    assert_eq!(l.allocate(32, 8), Some(A));
    assert_eq!(l.allocate(32, 8), Some(A + 32));
    assert_eq!(l.allocate(1, 1), None);
    l.release(A, 32, 8);
    l.release(A + 32, 32, 8);
    assert_eq!(l.allocate(64, 8), None);
    assert_eq!(l.allocate(32, 8), Some(A + 32));
    assert_eq!(l.allocate(32, 8), Some(A));
}

#[test]
fn list_minimum_block() {
    let mut l = heap(A, 256);
    assert_eq!(l.allocate(1, 1), Some(A));
    assert_eq!(l.allocate(0, 1), Some(A + 16));
    assert_eq!(l.allocate(17, 2), Some(A + 32));
    assert_eq!(l.allocate(8, 8), Some(A + 56));
}

#[test]
fn list_alignment_and_excess() {
    let start = A + 8;
    let mut l = heap(start, 512);
    let p = l.allocate(8, 64).unwrap();
    assert_eq!(p % 64, 0);
    assert_eq!(p, A + 64);
    let mut m = heap(A, 40);
    assert_eq!(m.allocate(32, 8), None);
    assert_eq!(m.allocate(24, 8), Some(A));
    assert_eq!(m.allocate(16, 8), Some(A + 24));
    assert_eq!(m.allocate(usize::MAX - 3, 8), None);
}

#[test]
fn list_first_fit_takes_most_recent() {
    let mut l = heap(A, 256);
    let p1 = l.allocate(32, 8).unwrap();
    let p2 = l.allocate(32, 8).unwrap();
    let _p3 = l.allocate(32, 8).unwrap();
    l.release(p1, 32, 8);
    l.release(p2, 32, 8);
    assert_eq!(l.allocate(32, 8), Some(p2));
    assert_eq!(l.allocate(32, 8), Some(p1));
}

#[test]
fn list_outstanding_blocks_disjoint() {
    let mut l = heap(A, 2048);
    let mut live: Vec<(usize, usize, usize)> = Vec::new();
    let reqs = [(10usize, 8usize), (100, 16), (3, 1), (64, 64), (200, 8), (17, 4), (48, 32)];
    for (k, (size, align)) in reqs.iter().enumerate() {
        let p = l.allocate(*size, *align).unwrap();
        assert_eq!(p % align, 0);
        live.push((p, *size, *align));
        if k % 3 == 2 {
            let (q, s, a) = live.remove(0);
            l.release(q, s, a);
        }
    }
    for (i, x) in live.iter().enumerate() {
        assert!(x.0 >= A && x.0 + x.1 <= A + 2048);
        for (j, y) in live.iter().enumerate() {
            if i != j {
                assert!(x.0 + x.1 <= y.0 || y.0 + y.1 <= x.0);
            }
        }
    }
}

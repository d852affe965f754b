use os_rust_demo::align_up;

#[test]
fn align_up_exact_values() {
    assert_eq!(align_up(0, 8), 0);
    assert_eq!(align_up(1, 8), 8);
    assert_eq!(align_up(8, 8), 8);
    assert_eq!(align_up(9, 8), 16);
    assert_eq!(align_up(4095, 4096), 4096);
    assert_eq!(align_up(4097, 1), 4097);
    assert_eq!(align_up(usize::MAX, 1), usize::MAX);
    assert_eq!(align_up(usize::MAX - 15, 8), usize::MAX - 15);
    assert_eq!(align_up(usize::MAX - 14, 8), usize::MAX - 7);
}

#[test]
fn align_up_is_next_multiple() {
    for align in [1usize, 2, 4, 8, 16, 64, 4096] {
        for addr in 0usize..300 {
            let r = align_up(addr, align);
            assert_eq!(r % align, 0);
            assert!(r >= addr);
            assert!(r < addr + align);
        }
    }
}

use os_rust_demo::SimpleExecutor;

#[test]
fn executor_round_robin() {
    let mut e: SimpleExecutor<u32> = SimpleExecutor::new();
    assert!(e.is_empty());
    e.spawn(1);
    e.spawn(2);
    e.spawn(3);
    let t = e.next_task().unwrap();
    assert_eq!(t, 1);
    e.requeue(t, false);
    let t = e.next_task().unwrap();
    assert_eq!(t, 2);
    e.requeue(t, true);
    assert_eq!(e.next_task(), Some(3));
    assert_eq!(e.next_task(), Some(1));
    assert_eq!(e.next_task(), None);
    assert!(e.is_empty());
}

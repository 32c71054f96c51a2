use rcore_os::recycle::RecycleAllocator;

#[test]
fn fresh_ids_count_up() {
    let mut a = RecycleAllocator::new();
    assert_eq!(a.allocate(), 0);
    assert_eq!(a.allocate(), 1);
    assert_eq!(a.allocate(), 2);
    assert_eq!(a.next_fresh(), 3);
    assert_eq!(a.recycled_len(), 0);
}

#[test]
fn returned_id_is_reused_first() {
    let mut a = RecycleAllocator::new();
    a.allocate();
    a.allocate();
    a.allocate();
    a.deallocate(1);
    assert_eq!(a.recycled_len(), 1);
    assert_eq!(a.allocate(), 1);
    assert_eq!(a.allocate(), 3);
}

#[test]
fn last_returned_is_reused_first() {
    let mut a = RecycleAllocator::new();
    for _ in 0..4 {
        a.allocate();
    }
    a.deallocate(0);
    a.deallocate(2);
    assert_eq!(a.allocate(), 2);
    assert_eq!(a.allocate(), 0);
    assert_eq!(a.allocate(), 4);
}

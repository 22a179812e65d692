use regalloc2::prioqueue::PrioQueue;

#[test]
fn heaviest_first_then_insertion_order() {
    let mut q = PrioQueue::new();
    assert!(q.is_empty());
    q.insert(5, 10);
    q.insert(9, 11);
    q.insert(5, 12);
    q.insert(9, 13);
    assert_eq!(q.pop(), Some(11));
    assert_eq!(q.pop(), Some(13));
    assert_eq!(q.pop(), Some(10));
    assert_eq!(q.pop(), Some(12));
    assert_eq!(q.pop(), None);
    assert!(q.is_empty());
}

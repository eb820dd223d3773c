use tifflin::queue::Queue;

#[test]
fn fifo_order() {
    let mut q = Queue::new();
    assert!(q.empty());
    q.push(1);
    q.push(2);
    q.push(3);
    assert!(!q.empty());
    assert_eq!(q.pop(), Some(1));
    q.push(4);
    assert_eq!(q.pop(), Some(2));
    assert_eq!(q.pop(), Some(3));
    assert_eq!(q.pop(), Some(4));
    assert_eq!(q.pop(), None);
    assert!(q.empty());
}

#[test]
fn items_walk() {
    let mut q = Queue::new();
    q.push("a");
    q.push("b");
    let mut it = q.items();
    assert_eq!(it.next(), Some(&"a"));
    assert_eq!(it.next(), Some(&"b"));
    assert_eq!(it.next(), None);
    assert_eq!(it.next(), None);
}

#[test]
fn freed_slots_are_reused_in_order() {
    let mut q = Queue::new();
    for i in 0..4 {
        q.push(i);
    }
    assert_eq!(q.pop(), Some(0));
    assert_eq!(q.pop(), Some(1));
    q.push(10);
    q.push(11);
    q.push(12);
    let mut it = q.items();
    let mut seen = Vec::new();
    while let Some(v) = it.next() {
        seen.push(*v);
    }
    assert_eq!(seen, vec![2, 3, 10, 11, 12]);
    for v in [2, 3, 10, 11, 12] {
        assert_eq!(q.pop(), Some(v));
    }
    assert!(q.empty());
}

use lithos_tree::queue::Queue;

#[test]
fn items_come_out_when_they_are_due() {
    let mut queue: Queue<&str> = Queue::new();
    assert_eq!(queue.peek_time(), None);
    queue.add(30, "c");
    queue.add(10, "a");
    queue.add(20, "b");
    assert_eq!(queue.peek_time(), Some(10));
    assert!(queue.pop_until(9).is_empty());
    assert_eq!(queue.pop_until(20), ["a", "b"]);
    assert_eq!(queue.peek_time(), Some(30));
    assert_eq!(queue.pop_until(i128::MAX), ["c"]);
    assert_eq!(queue.peek_time(), None);
}

#[test]
fn what_was_added_first_comes_first() {
    let mut queue: Queue<u8> = Queue::new();
    queue.add(5, 1);
    queue.add(-5, 2);
    queue.add(5, 3);
    queue.add(5, 4);
    queue.add(-5, 5);
    assert_eq!(queue.pop_until(5), [2, 5, 1, 3, 4]);
}

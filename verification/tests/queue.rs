use bystander::WaitFreeHelpQueue;

#[test]
fn new_queue_is_empty() {
    let mut queue: WaitFreeHelpQueue<u32, 3> = WaitFreeHelpQueue::new();
    assert_eq!(queue.peek(), None);
    assert_eq!(queue.max_phase(), None);
    assert_eq!(queue.try_remove_front(1), Err(()));
    for id in 0..3 {
        assert!(!queue.is_still_pending(id, u64::MAX));
    }
    let empty: WaitFreeHelpQueue<u32, 0> = WaitFreeHelpQueue::new();
    assert_eq!(empty.peek(), None);
}

#[test]
fn values_leave_in_the_order_of_arrival() {
    let mut queue: WaitFreeHelpQueue<u32, 2> = WaitFreeHelpQueue::new();
    queue.enqueue(0, 10);
    queue.enqueue(1, 20);
    queue.enqueue(0, 30);
    assert_eq!(queue.max_phase(), Some(2));
    assert_eq!(queue.peek(), Some(10));
    assert_eq!(queue.try_remove_front(20), Err(()));
    assert_eq!(queue.peek(), Some(10));
    assert_eq!(queue.try_remove_front(10), Ok(()));
    assert_eq!(queue.peek(), Some(20));
    assert_eq!(queue.try_remove_front(20), Ok(()));
    queue.enqueue(1, 40);
    assert_eq!(queue.try_remove_front(30), Ok(()));
    assert_eq!(queue.peek(), Some(40));
    assert_eq!(queue.try_remove_front(40), Ok(()));
    assert_eq!(queue.peek(), None);
    assert_eq!(queue.try_remove_front(40), Err(()));
}

#[test]
fn equal_values_are_removed_one_at_a_time() {
    let mut queue: WaitFreeHelpQueue<u32, 1> = WaitFreeHelpQueue::new();
    queue.enqueue(0, 5);
    queue.enqueue(0, 5);
    assert_eq!(queue.try_remove_front(5), Ok(()));
    assert_eq!(queue.peek(), Some(5));
    assert_eq!(queue.try_remove_front(5), Ok(()));
    assert_eq!(queue.peek(), None);
}

#[test]
fn enqueue_helps_those_who_stalled_after_announcing() {
    let mut queue: WaitFreeHelpQueue<u32, 4> = WaitFreeHelpQueue::new();
    assert_eq!(queue.begin_enqueue(2, 22), 0);
    assert_eq!(queue.begin_enqueue(0, 10), 1);
    assert!(queue.is_still_pending(2, 0));
    assert!(!queue.is_still_pending(0, 0));
    assert!(queue.is_still_pending(0, 1));
    assert_eq!(queue.peek(), None);
    queue.enqueue(1, 11);
    for id in 0..4 {
        assert!(!queue.is_still_pending(id, u64::MAX));
    }
    // In the order of handles, whoever announced first.
    for value in [10, 11, 22] {
        assert_eq!(queue.peek(), Some(value));
        assert_eq!(queue.try_remove_front(value), Ok(()));
    }
    assert_eq!(queue.peek(), None);
}

#[test]
fn help_stops_at_its_phase() {
    let mut queue: WaitFreeHelpQueue<u32, 3> = WaitFreeHelpQueue::new();
    let early = queue.begin_enqueue(2, 2);
    let late = queue.begin_enqueue(0, 1);
    queue.help(early);
    assert!(!queue.is_still_pending(2, late));
    assert!(queue.is_still_pending(0, late));
    assert_eq!(queue.peek(), Some(2));
    queue.complete_enqueue(late);
    assert_eq!(queue.try_remove_front(2), Ok(()));
    assert_eq!(queue.peek(), Some(1));
}

#[test]
fn help_enq_helps_one_handle() {
    let mut queue: WaitFreeHelpQueue<u32, 2> = WaitFreeHelpQueue::new();
    let a = queue.begin_enqueue(0, 1);
    let b = queue.begin_enqueue(1, 2);
    queue.help_enq(1, a);
    assert_eq!(queue.peek(), None);
    queue.help_enq(1, b);
    assert_eq!(queue.peek(), Some(2));
    assert!(queue.is_still_pending(0, a));
    assert!(!queue.is_still_pending(1, b));
}

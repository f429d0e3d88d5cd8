use bystander::enqueue::EnqueueRun;
use bystander::help_steps::RemoveAttempt;
use bystander::WaitFreeHelpQueue;

#[test]
fn a_stalled_link_is_finished_by_another_handle() {
    let mut queue: WaitFreeHelpQueue<u32, 2> = WaitFreeHelpQueue::new();
    queue.begin_enqueue(0, 10);
    let last = queue.load_tail();
    assert_eq!(queue.load_next(last), None);
    let attempt = queue.begin_link(last, 0).unwrap();
    assert!(queue.try_link(&attempt));
    // Handle 0 stalls here: its node is linked, the tail lags behind.
    assert!(queue.is_still_pending(0, 0));
    assert_eq!(queue.load_tail(), last);
    assert_eq!(queue.peek(), Some(10));
    queue.enqueue(1, 20);
    assert!(!queue.is_still_pending(0, 0));
    assert_eq!(queue.try_remove_front(10), Ok(()));
    assert_eq!(queue.try_remove_front(20), Ok(()));
    assert_eq!(queue.peek(), None);
}

#[test]
fn two_helpers_link_an_operation_once() {
    let mut queue: WaitFreeHelpQueue<u32, 2> = WaitFreeHelpQueue::new();
    queue.begin_enqueue(0, 10);
    let last = queue.load_tail();
    let first = queue.begin_link(last, 0).unwrap();
    let second = queue.begin_link(last, 0).unwrap();
    assert!(queue.try_link(&first));
    assert!(!queue.try_link(&second));
    queue.help_finish_enq();
    assert!(!queue.try_link(&second));
    assert!(queue.begin_link(last, 0).is_none());
    assert_eq!(queue.try_remove_front(10), Ok(()));
    assert_eq!(queue.peek(), None);
}

#[test]
fn two_helpers_finish_an_operation_once() {
    let mut queue: WaitFreeHelpQueue<u32, 2> = WaitFreeHelpQueue::new();
    queue.begin_enqueue(0, 10);
    let last = queue.load_tail();
    let link = queue.begin_link(last, 0).unwrap();
    assert!(queue.try_link(&link));
    let next = queue.load_next(last).unwrap();
    let first = queue.begin_finish(last, next);
    let second = queue.begin_finish(last, next);
    assert!(queue.confirm(&first));
    assert!(queue.confirm(&second));
    assert!(queue.try_mark(&first));
    assert!(!queue.try_mark(&second));
    assert!(queue.try_tail(&second));
    assert!(!queue.try_tail(&first));
    assert_eq!(queue.load_tail(), next);
    assert!(!queue.confirm(&first));
    assert!(!queue.is_still_pending(0, 0));
}

#[test]
fn a_late_finisher_leaves_the_next_operation_alone() {
    let mut queue: WaitFreeHelpQueue<u32, 2> = WaitFreeHelpQueue::new();
    queue.begin_enqueue(0, 10);
    let last = queue.load_tail();
    let link = queue.begin_link(last, 0).unwrap();
    assert!(queue.try_link(&link));
    let next = queue.load_next(last).unwrap();
    let late = queue.begin_finish(last, next);
    assert!(queue.confirm(&late));
    queue.help_finish_enq();
    let phase = queue.begin_enqueue(0, 20);
    assert!(!queue.try_mark(&late));
    assert!(!queue.try_tail(&late));
    assert!(queue.is_still_pending(0, phase));
    queue.complete_enqueue(phase);
    assert_eq!(queue.try_remove_front(10), Ok(()));
    assert_eq!(queue.peek(), Some(20));
}

#[test]
fn two_removers_move_the_head_once() {
    let mut queue: WaitFreeHelpQueue<u32, 1> = WaitFreeHelpQueue::new();
    queue.enqueue(0, 10);
    queue.enqueue(0, 20);
    let head = queue.load_head();
    let next = queue.load_next(head).unwrap();
    let first = RemoveAttempt { head, next };
    let second = RemoveAttempt { head, next };
    assert!(queue.try_head(&first));
    assert!(!queue.try_head(&second));
    queue.help_finish_enq();
    assert_eq!(queue.peek(), Some(20));
}

#[test]
fn the_head_may_pass_a_lagging_tail() {
    let mut queue: WaitFreeHelpQueue<u32, 2> = WaitFreeHelpQueue::new();
    queue.begin_enqueue(0, 10);
    let last = queue.load_tail();
    let link = queue.begin_link(last, 0).unwrap();
    assert!(queue.try_link(&link));
    assert_eq!(queue.try_remove_front(10), Ok(()));
    assert_eq!(queue.peek(), None);
    assert!(!queue.is_still_pending(0, 0));
    queue.enqueue(1, 20);
    assert_eq!(queue.peek(), Some(20));
}

#[test]
fn nothing_is_linked_behind_a_removed_node() {
    let mut queue: WaitFreeHelpQueue<u32, 2> = WaitFreeHelpQueue::new();
    let early = queue.begin_enqueue(1, 20);
    let late = queue.begin_enqueue(0, 10);
    // Handle 0 finds the tail with nothing behind it, and stalls.
    let last = queue.load_tail();
    assert_eq!(queue.load_next(last), None);
    // Handle 1 carries out its own operation only; its value is removed.
    queue.complete_enqueue(early);
    assert_eq!(queue.try_remove_front(20), Ok(()));
    // Handle 0 wakes up and cannot link behind the node that has left.
    let attempt = queue.begin_link(last, 0).unwrap();
    assert!(!queue.try_link(&attempt));
    assert!(queue.is_still_pending(0, late));
    queue.complete_enqueue(late);
    assert!(!queue.is_still_pending(0, late));
    assert_eq!(queue.try_remove_front(10), Ok(()));
    assert_eq!(queue.peek(), None);
}

#[test]
fn a_remover_finishes_what_the_tail_lags_behind() {
    let mut queue: WaitFreeHelpQueue<u32, 2> = WaitFreeHelpQueue::new();
    queue.begin_enqueue(0, 10);
    let sentinel = queue.load_tail();
    let link = queue.begin_link(sentinel, 0).unwrap();
    assert!(queue.try_link(&link));
    let head = queue.load_head();
    let next = queue.load_next(head).unwrap();
    let remove = RemoveAttempt { head, next };
    assert!(queue.try_head(&remove));
    // The tail is behind the head now, so it has to catch up.
    let last = queue.load_tail();
    assert_eq!(last, head);
    let finish = queue.begin_finish(last, queue.load_next(last).unwrap());
    assert!(queue.confirm(&finish));
    // Another handle finishes the operation meanwhile and enqueues.
    queue.enqueue(1, 20);
    assert!(!queue.try_mark(&finish));
    assert!(!queue.try_tail(&finish));
    assert_eq!(queue.load_next(head), Some(next));
    assert_eq!(queue.peek(), Some(20));
}

fn drain(queue: &mut WaitFreeHelpQueue<u32, 3>) -> Vec<u32> {
    let mut values = vec![];
    while let Some(value) = queue.peek() {
        assert_eq!(queue.try_remove_front(value), Ok(()));
        values.push(value);
    }
    values
}

#[test]
fn an_enqueue_alone_takes_its_accesses_one_by_one() {
    let mut queue: WaitFreeHelpQueue<u32, 3> = WaitFreeHelpQueue::new();
    let mut run = EnqueueRun::begin(&queue, 1, 10);
    let mut accesses = 0;
    while !run.is_done() {
        run.advance(&mut queue);
        accesses += 1;
    }
    // Three phases, the announcement, three visits, the round for handle 1, and
    // a last look for what the tail lags behind.
    assert_eq!(accesses, 3 + 1 + 3 + 7 + 6 + 2);
    assert_eq!(run.phase, 0);
    assert_eq!(drain(&mut queue), [10]);
}

#[test]
fn a_later_enqueue_carries_out_a_stalled_one() {
    let mut queue: WaitFreeHelpQueue<u32, 3> = WaitFreeHelpQueue::new();
    let mut stalled = EnqueueRun::begin(&queue, 2, 10);
    // It stalls at every place in turn.
    for place in 0..24 {
        if stalled.is_done() {
            break;
        }
        stalled.advance(&mut queue);
        let mut other = EnqueueRun::begin(&queue, 0, 100 + place);
        other.complete(&mut queue);
        let values = drain(&mut queue);
        assert!(values.contains(&(100 + place)));
        // The fourth access is the announcement.
        assert_eq!(values.contains(&10), place == 3);
    }
    stalled.complete(&mut queue);
    assert!(stalled.is_done());
    assert_eq!(drain(&mut queue), []);
}

#[test]
fn three_enqueues_in_every_order_of_a_small_schedule() {
    // Each schedule gives the next access to the handle that its digits name.
    for schedule in 0..2187_u32 {
        let mut queue: WaitFreeHelpQueue<u32, 3> = WaitFreeHelpQueue::new();
        let mut runs: Vec<EnqueueRun<u32>> =
            (0..3).map(|id| EnqueueRun::begin(&queue, id, id as u32)).collect();
        let mut accesses = [0; 3];
        let mut digits = schedule;
        let mut turn = 0;
        while runs.iter().any(|run| !run.is_done()) {
            let id = if digits > 0 { (digits % 3) as usize } else { turn % 3 };
            digits /= 3;
            turn += 1;
            for _ in 0..4 {
                if !runs[id].is_done() {
                    runs[id].advance(&mut queue);
                    accesses[id] += 1;
                }
            }
        }
        // The limit for three handles.
        assert!(accesses.iter().all(|made| *made <= 208 * 9 + 67 * 3 + 7));
        let mut values = drain(&mut queue);
        values.sort();
        assert_eq!(values, [0, 1, 2]);
    }
}

#[test]
fn a_busy_handle_cannot_keep_another_from_ending() {
    // Handle 0 makes a whole enqueue between any two accesses of handle 2.
    let mut queue: WaitFreeHelpQueue<u32, 3> = WaitFreeHelpQueue::new();
    let mut slow = EnqueueRun::begin(&queue, 2, 1);
    let mut accesses = 0;
    while !slow.is_done() {
        slow.advance(&mut queue);
        accesses += 1;
        let mut busy = EnqueueRun::begin(&queue, 0, 2);
        busy.complete(&mut queue);
    }
    // The first enqueue of handle 0 behind the announcement carries it out. At
    // the end, what is behind the tail has been completed before it can be.
    assert_eq!(accesses, 3 + 1 + 3 + 4);
    assert_eq!(drain(&mut queue).iter().filter(|value| **value == 1).count(), 1);
}

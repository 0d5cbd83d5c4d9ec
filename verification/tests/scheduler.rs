use event_scheduler::event::Event;
use event_scheduler::scheduler::{Scheduler, TimeOrderedQueue};

#[test]
fn remove_next_orders_by_time() {
    let mut q: TimeOrderedQueue<&str> = TimeOrderedQueue::new();
    q.insert(Event::new(5, "five"));
    q.insert(Event::new(1, "one"));
    q.insert(Event::new(3, "three"));
    let a = q.remove_next().unwrap();
    let b = q.remove_next().unwrap();
    let c = q.remove_next().unwrap();
    assert_eq!(a.start_time, 1);
    assert_eq!(a.payload, "one");
    assert_eq!(b.start_time, 3);
    assert_eq!(b.payload, "three");
    assert_eq!(c.start_time, 5);
    assert_eq!(c.payload, "five");
    assert!(q.is_empty());
}

#[test]
fn fifo_tie_break_equal_times() {
    let mut q: TimeOrderedQueue<String> = TimeOrderedQueue::new();
    q.insert(Event::new(7, String::from("A")));
    q.insert(Event::new(7, String::from("B")));
    assert_eq!(q.remove_next().unwrap().payload, "A");
    assert_eq!(q.remove_next().unwrap().payload, "B");
}

#[test]
fn removal_times_nondecreasing() {
    let mut q: TimeOrderedQueue<u32> = TimeOrderedQueue::new();
    for (i, t) in [4usize, 2, 9, 2, 4, 0].into_iter().enumerate() {
        q.insert(Event::new(t, i as u32));
    }
    let mut last: usize = 0;
    while !q.is_empty() {
        let e = q.remove_next().unwrap();
        assert!(e.start_time >= last);
        last = e.start_time;
    }
    assert!(q.remove_next().is_none());
}

#[test]
fn fifo_among_many_equal_times() {
    let mut q: TimeOrderedQueue<u32> = TimeOrderedQueue::new();
    for i in 0u32..5 {
        q.insert(Event::new(3, i));
    }
    for i in 0u32..5 {
        assert_eq!(q.remove_next().unwrap().payload, i);
    }
}

#[test]
fn peek_is_idempotent_and_preserves_emptiness() {
    let mut q: TimeOrderedQueue<&str> = TimeOrderedQueue::new();
    q.insert(Event::new(8, "late"));
    q.insert(Event::new(2, "early"));
    let empty_before = q.is_empty();
    {
        let p1 = q.peek_next().unwrap();
        assert_eq!(p1.start_time, 2);
        assert_eq!(p1.payload, "early");
    }
    {
        let p2 = q.peek_next().unwrap();
        assert_eq!(p2.start_time, 2);
        assert_eq!(p2.payload, "early");
    }
    assert_eq!(q.is_empty(), empty_before);
    let e = q.remove_next().unwrap();
    assert_eq!(e.payload, "early");
}

#[test]
fn peek_and_remove_on_empty_signal_empty() {
    let mut q: TimeOrderedQueue<u8> = TimeOrderedQueue::new();
    assert!(q.is_empty());
    assert!(q.peek_next().is_none());
    assert!(q.remove_next().is_none());
    assert!(q.is_empty());
}

#[test]
fn cancel_prevents_removal() {
    let mut q: TimeOrderedQueue<&str> = TimeOrderedQueue::new();
    let _h1 = q.insert(Event::new(1, "first"));
    let h2 = q.insert(Event::new(2, "second"));
    let _h3 = q.insert(Event::new(3, "third"));
    assert!(q.cancel(h2));
    let a = q.remove_next().unwrap();
    let b = q.remove_next().unwrap();
    assert_eq!(a.payload, "first");
    assert_eq!(b.payload, "third");
    assert!(q.is_empty());
}

#[test]
fn cancel_shrinks_queue_by_exactly_one() {
    let mut q: TimeOrderedQueue<u8> = TimeOrderedQueue::new();
    let h = q.insert(Event::new(4, 0));
    q.insert(Event::new(6, 1));
    assert_eq!(q.len(), 2);
    assert!(q.cancel(h));
    assert_eq!(q.len(), 1);
    assert!(!q.is_empty());
    q.remove_next().unwrap();
    assert_eq!(q.len(), 0);
    assert!(q.is_empty());
}

#[test]
fn handles_count_issued_sequence_numbers() {
    let mut q: TimeOrderedQueue<u8> = TimeOrderedQueue::new();
    assert_eq!(q.issued(), 0);
    let h1 = q.insert(Event::new(9, 0));
    let h2 = q.insert(Event::new(9, 1));
    assert_eq!(q.issued(), 2);
    assert_ne!(h1, h2);
    q.remove_next().unwrap();
    q.remove_next().unwrap();
    // removal never reuses sequence numbers
    assert_eq!(q.issued(), 2);
}

#[test]
fn insert_then_cancel_leaves_queue_empty() {
    let mut q: TimeOrderedQueue<u8> = TimeOrderedQueue::new();
    let h = q.insert(Event::new(10, 0));
    assert!(q.cancel(h));
    assert!(q.is_empty());
    assert!(q.remove_next().is_none());
}

#[test]
fn cancel_of_absent_handle_reports_not_found() {
    let mut q: TimeOrderedQueue<u8> = TimeOrderedQueue::new();
    let h = q.insert(Event::new(5, 0));
    assert!(q.cancel(h));
    // already cancelled
    assert!(!q.cancel(h));
    let h2 = q.insert(Event::new(6, 1));
    q.remove_next().unwrap();
    // already removed for execution
    assert!(!q.cancel(h2));
    assert!(q.is_empty());
}

#[test]
fn remove_behaves_like_cancel() {
    let mut q: TimeOrderedQueue<&str> = TimeOrderedQueue::new();
    let h1 = q.insert(Event::new(1, "a"));
    let h2 = q.insert(Event::new(2, "b"));
    assert!(q.remove(h1));
    assert!(!q.remove(h1));
    assert_eq!(q.remove_next().unwrap().payload, "b");
    assert!(!q.remove(h2));
}

#[test]
fn cancel_distinguishes_equal_timestamps() {
    let mut q: TimeOrderedQueue<&str> = TimeOrderedQueue::new();
    let _ha = q.insert(Event::new(7, "A"));
    let hb = q.insert(Event::new(7, "B"));
    let _hc = q.insert(Event::new(7, "C"));
    assert!(q.cancel(hb));
    assert_eq!(q.remove_next().unwrap().payload, "A");
    assert_eq!(q.remove_next().unwrap().payload, "C");
    assert!(q.is_empty());
}

#[test]
fn cancelled_event_never_returned_despite_later_inserts() {
    let mut q: TimeOrderedQueue<&str> = TimeOrderedQueue::new();
    let h = q.insert(Event::new(5, "doomed"));
    q.insert(Event::new(1, "a"));
    assert!(q.cancel(h));
    q.insert(Event::new(5, "b"));
    q.insert(Event::new(9, "c"));
    let mut seen: usize = 0;
    while let Some(e) = q.remove_next() {
        assert_ne!(e.payload, "doomed");
        seen += 1;
    }
    assert_eq!(seen, 3);
}

#[test]
fn is_empty_tracks_outstanding_count() {
    let mut q: TimeOrderedQueue<u8> = TimeOrderedQueue::new();
    assert!(q.is_empty());
    let h1 = q.insert(Event::new(3, 0));
    assert!(!q.is_empty());
    q.insert(Event::new(1, 1));
    assert!(!q.is_empty());
    q.remove_next().unwrap();
    assert!(!q.is_empty());
    assert!(q.cancel(h1));
    assert!(q.is_empty());
}

#[test]
fn interleaved_operations_keep_order() {
    let mut q: TimeOrderedQueue<u32> = TimeOrderedQueue::new();
    q.insert(Event::new(10, 0));
    q.insert(Event::new(0, 1));
    assert_eq!(q.remove_next().unwrap().payload, 1);
    let h = q.insert(Event::new(5, 2));
    q.insert(Event::new(5, 3));
    assert!(q.cancel(h));
    q.insert(Event::new(2, 4));
    assert_eq!(q.remove_next().unwrap().payload, 4);
    assert_eq!(q.remove_next().unwrap().payload, 3);
    assert_eq!(q.remove_next().unwrap().payload, 0);
    assert!(q.is_empty());
}

#[test]
fn past_and_future_timestamps_both_accepted() {
    let mut q: TimeOrderedQueue<&str> = TimeOrderedQueue::new();
    q.insert(Event::new(usize::MAX, "far future"));
    q.insert(Event::new(0, "long past"));
    assert_eq!(q.remove_next().unwrap().payload, "long past");
    assert_eq!(q.remove_next().unwrap().payload, "far future");
}

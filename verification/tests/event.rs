use event_scheduler::event::Event;

#[test]
fn new_binds_time_and_payload() {
    let e = Event::new(42, String::from("work"));
    assert_eq!(e.start_time, 42);
    assert_eq!(e.payload, "work");
}

#[test]
fn events_compare_by_start_time_only() {
    let a = Event::new(7, "A");
    let b = Event::new(7, "B");
    let c = Event::new(9, "C");
    assert!(a == b);
    assert!(a != c);
}

#[test]
fn events_order_by_start_time() {
    let early = Event::new(1, ());
    let late = Event::new(2, ());
    assert!(early < late);
    assert!(late > early);
    assert!(early <= Event::new(1, ()));
    assert_eq!(
        early.partial_cmp(&late),
        Some(std::cmp::Ordering::Less)
    );
}

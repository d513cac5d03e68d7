use gattify::winrt::queue::{InOrder, ProcedureQueue};

#[test]
fn one_entry_runs_at_a_time_in_order() {
    let mut queue = ProcedureQueue::default();
    queue.push(1);
    queue.push(2);
    assert_eq!(queue.start_next(), Some(&1));
    assert_eq!(queue.start_next(), None);
    assert_eq!(queue.in_flight(), Some(&1));
    assert_eq!(queue.finish(|item| *item == 2), None);
    assert_eq!(queue.finish(|item| *item == 1), Some(1));
    assert_eq!(queue.start_next(), Some(&2));
}

#[test]
fn a_rollback_runs_right_after_the_entry_in_flight() {
    let mut queue = ProcedureQueue::default();
    queue.push("read");
    queue.push("write");
    queue.start_next();
    queue.push_front("rollback");
    if let Some(item) = queue.in_flight_mut() {
        *item = "subscribe";
    }
    assert_eq!(queue.finish(|_| true), Some("subscribe"));
    assert_eq!(queue.start_next(), Some(&"rollback"));
}

#[test]
fn waiting_entries_leave_without_touching_the_one_in_flight() {
    let mut queue = ProcedureQueue::default();
    for item in 1..=4 {
        queue.push(item);
    }
    queue.start_next();
    assert_eq!(queue.remove_waiting(|item| item % 2 == 0), vec![2, 4]);
    assert_eq!(queue.drain(), vec![1, 3]);
    assert_eq!(queue.start_next(), None);
}

#[test]
fn entries_leave_in_sequence_whatever_order_they_become_ready_in() {
    let mut writes = InOrder::default();
    writes.expect(0);
    writes.fill(1, Some("second"));
    assert_eq!(writes.pop(), None);
    writes.fill(0, Some("first"));
    assert_eq!(writes.pop(), Some("first"));
    assert_eq!(writes.pop(), Some("second"));
    assert_eq!(writes.pop(), None);
}

#[test]
fn a_number_that_has_not_arrived_holds_back_later_ones() {
    let mut writes = InOrder::default();
    writes.fill(1, Some("second"));
    assert_eq!(writes.pop(), None);
    writes.fill(0, None);
    assert_eq!(writes.pop(), Some("second"));
}

#[test]
fn an_empty_queue_has_nothing_in_flight() {
    let mut queue: ProcedureQueue<u8> = ProcedureQueue::default();
    assert_eq!(queue.in_flight(), None);
    assert_eq!(queue.in_flight_mut(), None);
    assert_eq!(queue.start_next(), None);
    assert_eq!(queue.finish(|_| true), None);
    assert!(queue.drain().is_empty());
}

#[test]
fn a_pending_number_holds_back_the_ready_ones_after_it() {
    let mut writes = InOrder::default();
    writes.expect(0);
    writes.expect(1);
    writes.fill(1, Some("b"));
    assert_eq!(writes.pop(), None);
    writes.fill(0, Some("a"));
    assert_eq!(writes.pop(), Some("a"));
    assert_eq!(writes.pop(), Some("b"));
}

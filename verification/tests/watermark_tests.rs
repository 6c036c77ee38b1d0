use txn_oracle::{Closer, WaterMark, WaterMarkError};

#[test]
fn frontier_waits_for_minimum_pending_timestamp() {
    let mut wm = WaterMark::new("m".to_string());
    wm.begin(1).unwrap();
    wm.begin(2).unwrap();
    assert_eq!(wm.done_until().unwrap(), 0);
    wm.done(2).unwrap();
    // 1 is still outstanding, so the frontier cannot move
    assert_eq!(wm.done_until().unwrap(), 0);
    wm.done(1).unwrap();
    // both retired: the frontier jumps over 1 to 2
    assert_eq!(wm.done_until().unwrap(), 2);
}

#[test]
fn done_twice_for_same_timestamp_is_a_no_op() {
    let mut wm = WaterMark::new("m".to_string());
    wm.begin(1).unwrap();
    wm.done(1).unwrap();
    assert_eq!(wm.done_until().unwrap(), 1);
    // a duplicate done neither corrupts the frontier nor fails
    wm.done(1).unwrap();
    assert_eq!(wm.done_until().unwrap(), 1);
    // a done for a timestamp that was never begun is a no-op too
    wm.done(7).unwrap();
    assert_eq!(wm.done_until().unwrap(), 1);
}

#[test]
fn done_for_duplicate_begins_retires_one_each() {
    let mut wm = WaterMark::new("m".to_string());
    wm.begin(3).unwrap();
    wm.begin(3).unwrap();
    wm.done(3).unwrap();
    assert_eq!(wm.done_until().unwrap(), 0);
    wm.done(3).unwrap();
    assert_eq!(wm.done_until().unwrap(), 3);
}

#[test]
fn done_range_registers_a_whole_range_as_done() {
    let mut wm = WaterMark::new("m".to_string());
    // nothing of 1..=5 was ever begun: the range call retires all of it
    wm.done_range(0, 5).unwrap();
    assert_eq!(wm.done_until().unwrap(), 5);
    wm.begin(7).unwrap();
    wm.done_range(5, 7).unwrap();
    assert_eq!(wm.done_until().unwrap(), 7);
}

#[test]
fn done_range_stops_at_an_outstanding_timestamp() {
    let mut wm = WaterMark::new("m".to_string());
    wm.begin(2).unwrap();
    wm.begin(2).unwrap();
    wm.done_range(0, 4).unwrap();
    // the range retires one of the two begins at 2: the frontier stops
    // below the timestamp that is still outstanding
    assert_eq!(wm.done_until().unwrap(), 1);
    wm.done(2).unwrap();
    // nothing outstanding is left at or below 4
    assert_eq!(wm.done_until().unwrap(), 4);
}

#[test]
fn wait_for_mark_returns_immediately_when_reached() {
    let mut wm = WaterMark::new("m".to_string());
    wm.done_range(0, 10).unwrap();
    assert_eq!(wm.wait_for_mark(5).unwrap(), true);
    assert_eq!(wm.wait_for_mark(10).unwrap(), true);
    assert_eq!(wm.wait_for_mark(11).unwrap(), false);
}

#[test]
fn close_resolves_every_pending_waiter() {
    let mut wm = WaterMark::new("m".to_string());
    // a wait on a mark no commit ever reaches
    assert_eq!(wm.wait_for_mark(100).unwrap(), false);
    assert_eq!(wm.wait_for_mark(200).unwrap(), false);
    let resolved = wm.close();
    // both waiters are resolved at shutdown, in registration order
    assert_eq!(resolved, vec![100, 200]);
    // afterwards a wait reports the closed condition at once, never hanging
    assert!(matches!(wm.wait_for_mark(100), Err(WaterMarkError::Closed)));
    assert!(matches!(wm.begin(1), Err(WaterMarkError::Closed)));
    assert!(matches!(wm.done(1), Err(WaterMarkError::Closed)));
    assert!(matches!(wm.done_until(), Err(WaterMarkError::Closed)));
    // closing twice is a no-op
    let resolved_again = wm.close();
    assert_eq!(resolved_again, Vec::<u64>::new());
}

#[test]
fn waiter_is_dropped_once_its_mark_is_reached() {
    let mut wm = WaterMark::new("m".to_string());
    assert_eq!(wm.wait_for_mark(2).unwrap(), false);
    wm.begin(1).unwrap();
    wm.begin(2).unwrap();
    wm.done(1).unwrap();
    wm.done(2).unwrap();
    assert_eq!(wm.done_until().unwrap(), 2);
    // the waiter fired when the frontier reached 2: close resolves nothing
    let resolved = wm.close();
    assert_eq!(resolved, Vec::<u64>::new());
}

#[test]
fn watermark_keeps_its_name() {
    let wm = WaterMark::new("txn-visibility".to_string());
    assert_eq!(wm.name().as_str(), "txn-visibility");
}

#[test]
fn closer_counts_acknowledgements_after_signal() {
    let mut c = Closer::new(2);
    assert!(!c.is_signaled());
    // acknowledging before the signal is refused
    assert!(!c.acknowledge());
    c.signal();
    assert!(c.is_signaled());
    assert!(!c.all_acknowledged());
    assert!(c.acknowledge());
    assert!(c.acknowledge());
    assert!(c.all_acknowledged());
    // a third acknowledgement is refused
    assert!(!c.acknowledge());
}

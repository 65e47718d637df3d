use minikernel::stride::Scheduler;
use minikernel::stride::DEFAULT_PRIORITY;

#[test]
fn dispatch_shares_follow_priority() {
    // Priorities 2 and 4: over six dispatches the higher-priority entity
    // runs twice as often, ties broken by arrival order.
    let mut s = Scheduler::new();
    s.insert(1, 2);
    s.insert(2, 4);
    let picks: Vec<usize> = (0..6).map(|_| s.pick().unwrap()).collect();
    assert_eq!(picks, vec![1, 2, 2, 1, 2, 2]);
}

#[test]
fn set_priority_validates() {
    let mut s = Scheduler::new();
    s.insert(7, DEFAULT_PRIORITY);
    assert_eq!(s.set_priority(7, 1), -1);
    assert_eq!(s.set_priority(7, 0), -1);
    assert_eq!(s.set_priority(9, 4), -1);
    assert_eq!(s.set_priority(7, 4), 4);
}

#[test]
fn removal_and_empty_pick() {
    let mut s = Scheduler::new();
    assert_eq!(s.pick(), None);
    s.insert(3, 2);
    assert!(s.remove(3));
    assert!(!s.remove(3));
    assert_eq!(s.pick(), None);
}

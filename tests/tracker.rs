use os_sync::banker::safety_check;
use os_sync::detector::{DeadLockDetector, Safety};

fn sum_alloc(d: &DeadLockDetector, r: usize) -> usize {
    let mut s = 0;
    for t in 0..d.task_count_exec() {
        s += d.alloc_of(t, r);
    }
    s
}

fn conserved(d: &DeadLockDetector) -> bool {
    (0..d.resource_count_exec()).all(|r| d.avail_of(r) + sum_alloc(d, r) == d.capacity_of(r))
}

/// One resource of one unit, task 0 holding it, task 1 waiting for it.
fn two_tasks_one_unit() -> DeadLockDetector {
    let mut d = DeadLockDetector::new();
    assert_eq!(d.register_resource(1), 0);
    assert_eq!(d.register_task(), 0);
    assert_eq!(d.register_task(), 1);
    assert_eq!(d.request(0, 0), Safety::Safe);
    assert!(d.commit_allocation(0, 0));
    assert_eq!(d.request(1, 0), Safety::Safe);
    d
}

#[test]
fn textbook_snapshot_is_safe() {
    let avail = vec![3, 3, 2];
    let alloc = vec![vec![0, 1, 0], vec![2, 0, 0], vec![3, 0, 2], vec![2, 1, 1], vec![0, 0, 2]];
    let need = vec![vec![7, 4, 3], vec![1, 2, 2], vec![6, 0, 0], vec![0, 1, 1], vec![4, 3, 1]];
    // capacities are 10, 5, 7
    for r in 0..3 {
        let held: usize = alloc.iter().map(|row| row[r]).sum();
        assert_eq!(avail[r] + held, [10, 5, 7][r]);
    }
    assert!(safety_check(&avail, &alloc, &need));
}

#[test]
fn starved_snapshot_is_unsafe() {
    let avail = vec![0, 0];
    let alloc = vec![vec![1, 0], vec![0, 1]];
    let need = vec![vec![0, 1], vec![1, 0]];
    assert!(!safety_check(&avail, &alloc, &need));
}

#[test]
fn empty_state_is_safe() {
    assert!(safety_check(&vec![], &vec![], &vec![]));
    assert!(safety_check(&vec![4], &vec![], &vec![]));
}

#[test]
fn two_task_deadlock_is_refused_then_allowed_after_release() {
    let mut d = two_tasks_one_unit();
    assert_eq!(d.need_of(1, 0), 1);
    assert_eq!(d.alloc_of(0, 0), 1);
    assert!(!d.deadlock());
    // task 0 asks for the unit task 1 waits on: nobody could finish
    assert_eq!(d.request(0, 0), Safety::Unsafe);
    assert_eq!(d.need_of(0, 0), 0);
    // task 1 holds nothing it could give back
    assert!(!d.release(1, 0));
    assert_eq!(d.request(0, 0), Safety::Unsafe);
    // the holder gives its unit back; asking again is now safe
    assert!(d.release(0, 0));
    assert_eq!(d.avail_of(0), 1);
    assert_eq!(d.request(0, 0), Safety::Safe);
    assert_eq!(d.need_of(0, 0), 1);
    assert!(conserved(&d));
}

#[test]
fn unsafe_request_leaves_state_identical() {
    let mut d = two_tasks_one_unit();
    let before = d.clone();
    assert_eq!(d.request(0, 0), Safety::Unsafe);
    assert_eq!(d, before);
    // a request on a task row not yet seen that cannot be met rolls back its growth too
    let mut e = two_tasks_one_unit();
    assert_eq!(e.register_resource(0), 1);
    let before = e.clone();
    assert_eq!(e.request(5, 1), Safety::Unsafe);
    assert_eq!(e, before);
    assert_eq!(e.task_count_exec(), 2);
}

#[test]
fn disabled_detection_always_answers_safe() {
    let mut d = two_tasks_one_unit();
    d.enable(false);
    assert!(!d.is_enabled());
    assert!(!d.deadlock());
    assert_eq!(d.request(0, 0), Safety::Safe);
    assert_eq!(d.need_of(0, 0), 1);
    // even a resource nobody registered
    assert_eq!(d.request(0, 3), Safety::Safe);
    assert_eq!(d.resource_count_exec(), 4);
    assert_eq!(d.capacity_of(3), 0);
    assert_eq!(d.need_of(0, 3), 1);
    d.enable(true);
    assert!(d.deadlock());
}

#[test]
fn request_one_past_grows_with_zeros() {
    let mut d = DeadLockDetector::new();
    d.register_resource(2);
    d.register_resource(1);
    assert_eq!(d.task_count_exec(), 0);
    assert_eq!(d.request(0, 1), Safety::Safe);
    assert_eq!(d.task_count_exec(), 1);
    assert_eq!(d.need_of(0, 1), 1);
    assert_eq!(d.need_of(0, 0), 0);
    assert_eq!(d.alloc_of(0, 0), 0);
    assert_eq!(d.alloc_of(0, 1), 0);
    assert_eq!(d.request(1, 0), Safety::Safe);
    assert_eq!(d.task_count_exec(), 2);
    assert_eq!(d.need_of(1, 0), 1);
    assert_eq!(d.need_of(1, 1), 0);
}

#[test]
fn unknown_resource_is_unsafe_while_checking() {
    let mut d = DeadLockDetector::new();
    d.register_resource(1);
    let before = d.clone();
    assert_eq!(d.request(0, 1), Safety::Unsafe);
    assert_eq!(d, before);
}

#[test]
fn units_are_conserved_across_operations() {
    let mut d = DeadLockDetector::new();
    d.register_resource(3);
    d.register_resource(2);
    for _ in 0..3 {
        d.register_task();
    }
    assert!(conserved(&d));
    for (t, r) in [(0, 0), (1, 0), (1, 1), (2, 1), (0, 0)] {
        if d.request(t, r) == Safety::Safe {
            d.commit_allocation(t, r);
        }
        assert!(conserved(&d));
    }
    assert_eq!(d.avail_of(0), 0);
    assert_eq!(d.avail_of(1), 0);
    assert!(d.release(1, 1));
    assert!(conserved(&d));
    assert_eq!(d.avail_of(1), 1);
    d.reset(2);
    assert_eq!(d.task_count_exec(), 2);
    assert_eq!(d.avail_of(0), 3);
    assert_eq!(d.avail_of(1), 2);
    assert!(conserved(&d));
}

#[test]
fn commit_and_release_refuse_what_was_not_asked_or_held() {
    let mut d = DeadLockDetector::new();
    d.register_resource(1);
    d.register_task();
    assert!(!d.commit_allocation(0, 0));
    assert!(!d.release(0, 0));
    assert!(!d.commit_allocation(4, 0));
    assert!(!d.release(0, 7));
    assert_eq!(d.avail_of(0), 1);
    assert_eq!(d.request(0, 0), Safety::Safe);
    assert!(d.commit_allocation(0, 0));
    assert_eq!(d.avail_of(0), 0);
    assert_eq!(d.alloc_of(0, 0), 1);
    assert_eq!(d.need_of(0, 0), 0);
    assert!(!d.commit_allocation(0, 0));
}

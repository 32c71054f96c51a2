use rcore_os::config::{DEADLOCK_SIGNAL, WAIT_SIGNAL};
use rcore_os::deadlock::DeadlockDetector;

#[test]
fn first_lock_gets_identifier_one() {
    let mut d = DeadlockDetector::new();
    assert_eq!(d.alloc_id(0, 1), 1);
    assert_eq!(d.alloc_id(0, 3), 2);
}

#[test]
fn grant_then_release() {
    let mut d = DeadlockDetector::new();
    let id = d.alloc_id(0, 1);
    assert_eq!(d.detect_deadlock(0, id, false), 0);
    d.release(0, id);
    assert_eq!(d.detect_deadlock(1, id, false), 0);
}

#[test]
fn second_request_waits() {
    let mut d = DeadlockDetector::new();
    let id = d.alloc_id(0, 1);
    assert_eq!(d.detect_deadlock(0, id, false), 0);
    assert_eq!(d.detect_deadlock(1, id, false), WAIT_SIGNAL);
}

#[test]
fn waiting_request_is_granted_on_retry_after_release() {
    let mut d = DeadlockDetector::new();
    let id = d.alloc_id(0, 1);
    assert_eq!(d.detect_deadlock(0, id, false), 0);
    assert_eq!(d.detect_deadlock(1, id, false), WAIT_SIGNAL);
    assert_eq!(d.detect_deadlock(1, id, true), WAIT_SIGNAL);
    d.release(0, id);
    assert_eq!(d.detect_deadlock(1, id, true), 0);
}

#[test]
fn crossed_requests_deadlock() {
    let mut d = DeadlockDetector::new();
    let a = d.alloc_id(0, 1);
    let b = d.alloc_id(0, 1);
    assert_eq!(d.detect_deadlock(0, a, false), 0);
    assert_eq!(d.detect_deadlock(1, b, false), 0);
    assert_eq!(d.detect_deadlock(0, b, false), WAIT_SIGNAL);
    assert_eq!(d.detect_deadlock(1, a, false), DEADLOCK_SIGNAL);
}

#[test]
fn semaphore_units_shared_by_threads() {
    let mut d = DeadlockDetector::new();
    let s = d.alloc_id(0, 2);
    assert_eq!(d.detect_deadlock(0, s, false), 0);
    assert_eq!(d.detect_deadlock(1, s, false), 0);
    assert_eq!(d.detect_deadlock(2, s, false), WAIT_SIGNAL);
    d.release(1, s);
    assert_eq!(d.detect_deadlock(2, s, true), 0);
}

#[test]
fn three_thread_cycle_deadlocks() {
    let mut d = DeadlockDetector::new();
    let a = d.alloc_id(0, 1);
    let b = d.alloc_id(0, 1);
    let c = d.alloc_id(0, 1);
    assert_eq!(d.detect_deadlock(0, a, false), 0);
    assert_eq!(d.detect_deadlock(1, b, false), 0);
    assert_eq!(d.detect_deadlock(2, c, false), 0);
    assert_eq!(d.detect_deadlock(0, b, false), WAIT_SIGNAL);
    assert_eq!(d.detect_deadlock(1, c, false), WAIT_SIGNAL);
    assert_eq!(d.detect_deadlock(2, a, false), DEADLOCK_SIGNAL);
}

#[test]
fn registering_a_thread_changes_nothing() {
    let mut d = DeadlockDetector::new();
    let a = d.alloc_id(0, 1);
    d.push_thread_available(5);
    assert_eq!(d.detect_deadlock(5, a, false), 0);
}

#[test]
fn release_undoes_a_grant() {
    let mut d = DeadlockDetector::new();
    let id = d.alloc_id(0, 2);
    assert_eq!(d.allocation_of(3, id), 0);
    assert_eq!(d.detect_deadlock(3, id, false), 0);
    assert_eq!(d.allocation_of(3, id), 1);
    assert_eq!(d.need_of(3, id), 0);
    d.release(3, id);
    assert_eq!(d.allocation_of(3, id), 0);
    assert_eq!(d.need_of(3, id), 0);
    assert_eq!(d.detect_deadlock(1, id, false), 0);
    assert_eq!(d.detect_deadlock(2, id, false), 0);
}

#[test]
fn a_waiting_request_stays_counted() {
    let mut d = DeadlockDetector::new();
    let id = d.alloc_id(0, 1);
    assert_eq!(d.detect_deadlock(0, id, false), 0);
    assert_eq!(d.detect_deadlock(1, id, false), WAIT_SIGNAL);
    assert_eq!(d.need_of(1, id), 1);
}

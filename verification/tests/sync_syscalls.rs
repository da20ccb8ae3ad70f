use oskernel::deadlock_detector::DeadlockDetector;
use oskernel::sync_syscalls::{
    mutex_lock_acquired, sys_condvar_create, sys_condvar_signal, sys_condvar_wait,
    sys_enable_deadlock_detect, sys_mutex_create, sys_mutex_lock, sys_mutex_unlock,
    sys_semaphore_create, sys_semaphore_down, sys_semaphore_up, sys_sleep, ProcessSyncState,
    EDEADLOCK,
};

fn empty_state() -> ProcessSyncState {
    ProcessSyncState {
        mutex_list: Vec::new(),
        semaphore_list: Vec::new(),
        condvar_list: Vec::new(),
        mutex_deadlock_detector: DeadlockDetector::new(),
        semaphore_deadlock_detector: DeadlockDetector::new(),
        deadlock_detect_enabled: false,
    }
}

#[test]
fn mutex_create_takes_next_id_and_registers_resource() {
    let mut st = empty_state();
    assert_eq!(sys_mutex_create(&mut st, 0, true), 0);
    assert_eq!(sys_mutex_create(&mut st, 2, false), 1);
    assert_eq!(st.mutex_list.len(), 2);
    let m0 = st.mutex_list[0].as_ref().unwrap();
    assert!(m0.blocking);
    assert_eq!(m0.rid, 0);
    let m1 = st.mutex_list[1].as_ref().unwrap();
    assert!(!m1.blocking);
    assert_eq!(m1.rid, 1);
    assert_eq!(st.mutex_deadlock_detector.inner.available, vec![1, 1]);
    assert_eq!(st.mutex_deadlock_detector.inner.allocation, vec![vec![0, 0]; 3]);
    assert_eq!(st.mutex_deadlock_detector.inner.need, vec![vec![0, 0]; 3]);
    assert!(st.semaphore_list.is_empty());
}

#[test]
fn mutex_create_reuses_first_free_slot() {
    let mut st = empty_state();
    sys_mutex_create(&mut st, 0, true);
    sys_mutex_create(&mut st, 0, true);
    sys_mutex_create(&mut st, 0, true);
    st.mutex_list[1] = None;
    assert_eq!(sys_mutex_create(&mut st, 0, false), 1);
    assert_eq!(st.mutex_list.len(), 3);
    assert_eq!(st.mutex_list[1].as_ref().unwrap().rid, 1);
    assert!(!st.mutex_list[1].as_ref().unwrap().blocking);
}

#[test]
fn mutex_lock_and_unlock_one_thread() {
    let mut st = empty_state();
    sys_mutex_create(&mut st, 0, true);
    assert_eq!(sys_mutex_lock(&mut st, 0, 0), 0);
    assert_eq!(st.mutex_deadlock_detector.inner.available, vec![0]);
    assert_eq!(st.mutex_deadlock_detector.inner.allocation, vec![vec![1]]);
    assert_eq!(st.mutex_deadlock_detector.inner.need, vec![vec![0]]);
    // the lock was granted at once: reporting it changes nothing
    mutex_lock_acquired(&mut st, 0, 0);
    assert_eq!(st.mutex_deadlock_detector.inner.allocation, vec![vec![1]]);
    assert_eq!(st.mutex_deadlock_detector.inner.available, vec![0]);
    assert_eq!(sys_mutex_unlock(&mut st, 0, 0), 0);
    assert_eq!(st.mutex_deadlock_detector.inner.available, vec![1]);
    assert_eq!(st.mutex_deadlock_detector.inner.allocation, vec![vec![0]]);
}

#[test]
fn mutex_lock_waits_on_contention_with_detection_on() {
    let mut st = empty_state();
    sys_mutex_create(&mut st, 1, true);
    sys_mutex_create(&mut st, 2, true);
    assert_eq!(sys_enable_deadlock_detect(&mut st, 1), 0);
    assert_eq!(sys_mutex_lock(&mut st, 1, 0), 0);
    assert_eq!(sys_mutex_lock(&mut st, 2, 1), 0);
    // mutex 1 is held by thread 2; waiting for it cannot deadlock
    assert_eq!(sys_mutex_lock(&mut st, 1, 1), 0);
    assert_eq!(st.mutex_deadlock_detector.inner.need, vec![vec![0, 0], vec![0, 1], vec![0, 0]]);
}

#[test]
fn mutex_lock_refused_on_deadlock_with_detection_on() {
    let mut st = empty_state();
    sys_mutex_create(&mut st, 1, true);
    sys_mutex_create(&mut st, 2, true);
    assert_eq!(sys_enable_deadlock_detect(&mut st, 1), 0);
    assert_eq!(sys_mutex_lock(&mut st, 1, 0), 0);
    assert_eq!(sys_mutex_lock(&mut st, 2, 1), 0);
    assert_eq!(sys_mutex_lock(&mut st, 1, 1), 0);
    let avail = st.mutex_deadlock_detector.inner.available.clone();
    let alloc = st.mutex_deadlock_detector.inner.allocation.clone();
    let need = st.mutex_deadlock_detector.inner.need.clone();
    // thread 2 waiting for mutex 0, held by thread 1, closes the cycle
    assert_eq!(sys_mutex_lock(&mut st, 2, 0), EDEADLOCK);
    assert_eq!(EDEADLOCK, -0xDEAD);
    // a refused lock leaves the detector as it was
    assert_eq!(st.mutex_deadlock_detector.inner.available, avail);
    assert_eq!(st.mutex_deadlock_detector.inner.allocation, alloc);
    assert_eq!(st.mutex_deadlock_detector.inner.need, need);
}

#[test]
fn mutex_lock_waits_and_records_new_holder_with_detection_off() {
    let mut st = empty_state();
    sys_mutex_create(&mut st, 1, true);
    assert_eq!(sys_mutex_lock(&mut st, 0, 0), 0);
    assert_eq!(sys_mutex_lock(&mut st, 1, 0), 0);
    // thread 1 waits: its claim stays recorded
    assert_eq!(st.mutex_deadlock_detector.inner.allocation, vec![vec![1], vec![0]]);
    assert_eq!(st.mutex_deadlock_detector.inner.need, vec![vec![0], vec![1]]);
    // thread 0 unlocks, thread 1 takes the mutex and reports it
    assert_eq!(sys_mutex_unlock(&mut st, 0, 0), 0);
    mutex_lock_acquired(&mut st, 1, 0);
    assert_eq!(st.mutex_deadlock_detector.inner.available, vec![0]);
    assert_eq!(st.mutex_deadlock_detector.inner.allocation, vec![vec![0], vec![1]]);
    assert_eq!(st.mutex_deadlock_detector.inner.need, vec![vec![0], vec![0]]);
    // and its own unlock gives the mutex back
    assert_eq!(sys_mutex_unlock(&mut st, 1, 0), 0);
    assert_eq!(st.mutex_deadlock_detector.inner.available, vec![1]);
}

#[test]
fn semaphore_create_registers_count() {
    let mut st = empty_state();
    assert_eq!(sys_semaphore_create(&mut st, 0, 3), 0);
    assert_eq!(sys_semaphore_create(&mut st, 1, 0), 1);
    let s0 = st.semaphore_list[0].as_ref().unwrap();
    assert_eq!(s0.res_count, 3);
    assert_eq!(s0.rid, 0);
    assert_eq!(st.semaphore_deadlock_detector.inner.available, vec![3, 0]);
    assert_eq!(st.semaphore_deadlock_detector.inner.allocation, vec![vec![0, 0]; 2]);
    st.semaphore_list[0] = None;
    assert_eq!(sys_semaphore_create(&mut st, 0, 5), 0);
    // re-registering resource 0 resets its column
    assert_eq!(st.semaphore_deadlock_detector.inner.available, vec![5, 0]);
    assert!(st.mutex_list.is_empty());
}

#[test]
fn semaphore_down_and_up() {
    let mut st = empty_state();
    sys_semaphore_create(&mut st, 0, 2);
    assert_eq!(sys_semaphore_down(&mut st, 0, 0), 0);
    assert_eq!(sys_semaphore_down(&mut st, 0, 0), 0);
    assert_eq!(st.semaphore_deadlock_detector.inner.available, vec![0]);
    assert_eq!(st.semaphore_deadlock_detector.inner.allocation, vec![vec![2]]);
    assert_eq!(sys_semaphore_up(&mut st, 0, 0), 0);
    assert_eq!(st.semaphore_deadlock_detector.inner.available, vec![1]);
    assert_eq!(st.semaphore_deadlock_detector.inner.allocation, vec![vec![1]]);
}

#[test]
fn semaphore_down_busy_keeps_claim() {
    let mut st = empty_state();
    sys_semaphore_create(&mut st, 0, 1);
    sys_semaphore_create(&mut st, 1, 0);
    assert_eq!(sys_enable_deadlock_detect(&mut st, 1), 0);
    assert_eq!(sys_semaphore_down(&mut st, 0, 0), 0);
    // thread 1 waits for semaphore 0, which thread 0 holds: no deadlock,
    // the thread goes on to wait and its claim stays recorded
    assert_eq!(sys_semaphore_down(&mut st, 1, 0), 0);
    assert_eq!(st.semaphore_deadlock_detector.inner.need, vec![vec![0, 0], vec![1, 0]]);
}

#[test]
fn semaphore_down_deadlock_refused() {
    let mut st = empty_state();
    sys_semaphore_create(&mut st, 0, 1);
    sys_semaphore_create(&mut st, 1, 1);
    assert_eq!(sys_enable_deadlock_detect(&mut st, 1), 0);
    assert_eq!(sys_semaphore_down(&mut st, 0, 0), 0);
    assert_eq!(sys_semaphore_down(&mut st, 1, 1), 0);
    // thread 0 now waits for semaphore 1 (busy, no deadlock yet)
    assert_eq!(sys_semaphore_down(&mut st, 0, 1), 0);
    // thread 1 waiting for semaphore 0 closes the cycle
    assert_eq!(sys_semaphore_down(&mut st, 1, 0), EDEADLOCK);
    assert_eq!(st.semaphore_deadlock_detector.inner.need, vec![vec![0, 1], vec![0, 0]]);
}

#[test]
fn semaphore_down_deadlock_not_refused_when_detection_off() {
    let mut st = empty_state();
    sys_semaphore_create(&mut st, 0, 1);
    sys_semaphore_create(&mut st, 1, 1);
    assert_eq!(sys_semaphore_down(&mut st, 0, 0), 0);
    assert_eq!(sys_semaphore_down(&mut st, 1, 1), 0);
    assert_eq!(sys_semaphore_down(&mut st, 0, 1), 0);
    assert_eq!(sys_semaphore_down(&mut st, 1, 0), 0);
    assert_eq!(st.semaphore_deadlock_detector.inner.need, vec![vec![0, 1], vec![1, 0]]);
    assert!(st.semaphore_deadlock_detector.inner.check());
}

#[test]
fn condvar_create_reuses_slots() {
    let mut st = empty_state();
    assert_eq!(sys_condvar_create(&mut st), 0);
    assert_eq!(sys_condvar_create(&mut st), 1);
    st.condvar_list[0] = None;
    assert_eq!(sys_condvar_create(&mut st), 0);
    assert_eq!(st.condvar_list.len(), 2);
    assert!(st.condvar_list[0].is_some());
}

#[test]
fn condvar_signal_and_wait_pass_on_their_ids() {
    let mut st = empty_state();
    sys_condvar_create(&mut st);
    sys_condvar_create(&mut st);
    sys_mutex_create(&mut st, 0, true);
    let mut signalled = None;
    assert_eq!(sys_condvar_signal(&st, 1, |c| signalled = Some(c)), 0);
    assert_eq!(signalled, Some(1));
    let mut waited = None;
    assert_eq!(sys_condvar_wait(&st, 0, 0, |c, m| waited = Some((c, m))), 0);
    assert_eq!(waited, Some((0, 0)));
}

#[test]
fn enable_deadlock_detect_accepts_zero_and_one_only() {
    let mut st = empty_state();
    assert_eq!(sys_enable_deadlock_detect(&mut st, 1), 0);
    assert!(st.deadlock_detect_enabled);
    assert_eq!(sys_enable_deadlock_detect(&mut st, 2), -1);
    assert!(st.deadlock_detect_enabled);
    assert_eq!(sys_enable_deadlock_detect(&mut st, 0), 0);
    assert!(!st.deadlock_detect_enabled);
    assert_eq!(sys_enable_deadlock_detect(&mut st, usize::MAX), -1);
    assert!(!st.deadlock_detect_enabled);
}

#[test]
fn sleep_arms_timer_at_now_plus_ms() {
    let mut armed = None;
    assert_eq!(sys_sleep(250, 1000, |t| armed = Some(t)), 0);
    assert_eq!(armed, Some(1250));
}

use oskernel::deadlock_detector::{DeadlockDetector, DeadlockDetectorInner};

fn detector(available: Vec<usize>, allocation: Vec<Vec<usize>>, need: Vec<Vec<usize>>) -> DeadlockDetector {
    DeadlockDetector { inner: DeadlockDetectorInner { available, allocation, need } }
}

#[test]
fn new_detector_is_empty_and_not_deadlocked() {
    let d = DeadlockDetector::new();
    assert!(d.inner.available.is_empty());
    assert!(d.inner.allocation.is_empty());
    assert!(d.inner.need.is_empty());
    assert!(!d.inner.check());
}

#[test]
fn add_thread_appends_zero_rows_up_to_tid() {
    let mut d = DeadlockDetector::new();
    d.add_resource(1, 5);
    d.add_thread(2);
    assert_eq!(d.inner.allocation, vec![vec![0, 0]; 3]);
    assert_eq!(d.inner.need, vec![vec![0, 0]; 3]);
    // a thread that already has a row changes nothing
    d.claim(1, 1, 4);
    d.add_thread(1);
    assert_eq!(d.inner.allocation.len(), 3);
    assert_eq!(d.inner.need[1], vec![0, 4]);
}

#[test]
fn add_resource_pads_skipped_resources_with_zero() {
    let mut d = DeadlockDetector::new();
    d.add_thread(0);
    d.add_resource(2, 7);
    assert_eq!(d.inner.available, vec![0, 0, 7]);
    assert_eq!(d.inner.allocation, vec![vec![0, 0, 0]]);
    assert_eq!(d.inner.need, vec![vec![0, 0, 0]]);
}

#[test]
fn add_resource_again_resets_its_column() {
    let mut d = detector(vec![1, 2], vec![vec![3, 4], vec![5, 6]], vec![vec![7, 8], vec![9, 10]]);
    d.add_resource(1, 11);
    assert_eq!(d.inner.available, vec![1, 11]);
    assert_eq!(d.inner.allocation, vec![vec![3, 0], vec![5, 0]]);
    assert_eq!(d.inner.need, vec![vec![7, 0], vec![9, 0]]);
}

#[test]
fn unclaim_undoes_claim() {
    let mut d = detector(vec![1], vec![vec![0], vec![0]], vec![vec![2], vec![0]]);
    d.claim(0, 0, 3);
    assert_eq!(d.inner.need, vec![vec![5], vec![0]]);
    d.unclaim(0, 0, 3);
    assert_eq!(d.inner.need, vec![vec![2], vec![0]]);
}

#[test]
fn request_granted_moves_units() {
    let mut d = detector(vec![3], vec![vec![0]], vec![vec![2]]);
    assert!(d.request(0, 0, 2));
    assert_eq!(d.inner.available, vec![1]);
    assert_eq!(d.inner.allocation, vec![vec![2]]);
    assert_eq!(d.inner.need, vec![vec![0]]);
}

#[test]
fn request_more_than_available_is_refused() {
    let mut d = detector(vec![1], vec![vec![0]], vec![vec![2]]);
    assert!(!d.request(0, 0, 2));
    assert_eq!(d.inner.available, vec![1]);
    assert_eq!(d.inner.allocation, vec![vec![0]]);
    assert_eq!(d.inner.need, vec![vec![2]]);
}

#[test]
fn request_more_than_claimed_is_refused() {
    let mut d = detector(vec![5], vec![vec![0]], vec![vec![1]]);
    assert!(!d.request(0, 0, 2));
    assert_eq!(d.inner.available, vec![5]);
    assert_eq!(d.inner.need, vec![vec![1]]);
}

#[test]
fn request_that_would_deadlock_is_refused_and_undone() {
    // Two threads, two single-unit resources; thread 0 holds resource 0 and
    // wants resource 1, thread 1 wants both.
    let mut d = detector(vec![0, 1], vec![vec![1, 0], vec![0, 0]], vec![vec![0, 1], vec![1, 1]]);
    assert!(!d.inner.check());
    // Giving resource 1 to thread 1 leaves nobody able to finish.
    assert!(!d.request(1, 1, 1));
    assert_eq!(d.inner.available, vec![0, 1]);
    assert_eq!(d.inner.allocation, vec![vec![1, 0], vec![0, 0]]);
    assert_eq!(d.inner.need, vec![vec![0, 1], vec![1, 1]]);
    // Giving it to thread 0 is safe.
    assert!(d.request(0, 1, 1));
    assert_eq!(d.inner.available, vec![0, 0]);
    assert_eq!(d.inner.allocation, vec![vec![1, 1], vec![0, 0]]);
    assert_eq!(d.inner.need, vec![vec![0, 0], vec![1, 1]]);
}

#[test]
fn release_undoes_grant_but_keeps_claim_used_up() {
    let mut d = detector(vec![4], vec![vec![1]], vec![vec![3]]);
    assert!(d.request(0, 0, 3));
    d.release(0, 0, 3);
    assert_eq!(d.inner.available, vec![4]);
    assert_eq!(d.inner.allocation, vec![vec![1]]);
    assert_eq!(d.inner.need, vec![vec![0]]);
}

#[test]
fn check_finds_circular_wait() {
    let inner = DeadlockDetectorInner {
        available: vec![0, 0],
        allocation: vec![vec![1, 0], vec![0, 1]],
        need: vec![vec![0, 1], vec![1, 0]],
    };
    assert!(inner.check());
}

#[test]
fn check_accepts_textbook_safe_state() {
    // Five threads, three resources; a safe order is 1, 3, 4, 0, 2.
    let inner = DeadlockDetectorInner {
        available: vec![3, 3, 2],
        allocation: vec![vec![0, 1, 0], vec![2, 0, 0], vec![3, 0, 2], vec![2, 1, 1], vec![0, 0, 2]],
        need: vec![vec![7, 4, 3], vec![1, 2, 2], vec![6, 0, 0], vec![0, 1, 1], vec![4, 3, 1]],
    };
    assert!(!inner.check());
}

#[test]
fn check_textbook_state_after_a_grant() {
    // Same system after thread 0 also took two units of resource 1.
    let inner = DeadlockDetectorInner {
        available: vec![3, 1, 2],
        allocation: vec![vec![0, 3, 0], vec![2, 0, 0], vec![3, 0, 2], vec![2, 1, 1], vec![0, 0, 2]],
        need: vec![vec![7, 2, 3], vec![1, 2, 2], vec![6, 0, 0], vec![0, 1, 1], vec![4, 3, 1]],
    };
    // threads 3, 1, 2, 0 and 4 can finish one after the other
    assert!(!inner.check());
    let blocked = DeadlockDetectorInner {
        available: vec![0, 0, 0],
        allocation: vec![vec![0, 3, 0], vec![2, 0, 0], vec![3, 0, 2], vec![2, 1, 1], vec![0, 0, 2]],
        need: vec![vec![7, 2, 3], vec![1, 2, 2], vec![6, 0, 0], vec![0, 1, 1], vec![4, 3, 1]],
    };
    assert!(blocked.check());
}

#[test]
fn check_ignores_threads_without_needs() {
    let inner = DeadlockDetectorInner {
        available: vec![0],
        allocation: vec![vec![1], vec![0]],
        need: vec![vec![0], vec![1]],
    };
    // thread 0 finishes and gives back its unit, which thread 1 then gets
    assert!(!inner.check());
}

#[test]
fn check_reads_only_the_columns_a_need_row_has() {
    // thread 1's need row is shorter than the number of resources and
    // thread 0's allocation row is longer: the missing need counts as met
    let inner = DeadlockDetectorInner {
        available: vec![0, 0],
        allocation: vec![vec![0, 1, 9], vec![1, 0]],
        need: vec![vec![1, 0], vec![0]],
    };
    assert!(!inner.check());
    let stuck = DeadlockDetectorInner {
        available: vec![0, 0],
        allocation: vec![vec![0, 1, 9], vec![1, 0]],
        need: vec![vec![1, 0], vec![1]],
    };
    assert!(stuck.check());
}

#[test]
fn operations_keep_each_resource_total() {
    let mut d = DeadlockDetector::new();
    d.add_thread(0);
    d.add_thread(1);
    d.add_resource(0, 3);
    d.add_resource(1, 2);
    d.claim(0, 0, 2);
    d.claim(1, 1, 2);
    d.claim(1, 0, 1);
    assert!(d.request(0, 0, 2));
    assert!(d.request(1, 1, 1));
    d.release(0, 0, 1);
    d.unclaim(1, 0, 1);
    d.add_thread(3);
    for (j, total) in [3usize, 2].iter().enumerate() {
        let held: usize = d.inner.allocation.iter().map(|row| row[j]).sum();
        assert_eq!(d.inner.available[j] + held, *total);
    }
}

#[test]
fn granted_requests_never_deadlock() {
    let mut d = detector(vec![1, 1], vec![vec![0, 0], vec![0, 0]], vec![vec![1, 1], vec![1, 1]]);
    assert!(!d.inner.check());
    // the first grant leaves a state where every thread can still finish
    assert!(d.request(0, 0, 1));
    assert!(!d.inner.check());
    // giving resource 1 to thread 1 would leave both threads stuck
    assert!(!d.request(1, 1, 1));
    assert!(!d.inner.check());
    assert!(d.request(0, 1, 1));
    assert!(!d.inner.check());
}

#[test]
fn check_does_not_depend_on_thread_numbering() {
    let allocation = vec![vec![0, 1, 0], vec![2, 0, 0], vec![3, 0, 2], vec![2, 1, 1], vec![0, 0, 2]];
    let need = vec![vec![7, 4, 3], vec![1, 2, 2], vec![6, 0, 0], vec![0, 1, 1], vec![4, 3, 1]];
    let orders = [[0usize, 1, 2, 3, 4], [4, 3, 2, 1, 0], [2, 0, 4, 1, 3]];
    for available in [vec![3usize, 3, 2], vec![1, 0, 0]] {
        let base = DeadlockDetectorInner {
            available: available.clone(),
            allocation: allocation.clone(),
            need: need.clone(),
        }
        .check();
        for p in orders.iter() {
            let renumbered = DeadlockDetectorInner {
                available: available.clone(),
                allocation: p.iter().map(|&i| allocation[i].clone()).collect(),
                need: p.iter().map(|&i| need[i].clone()).collect(),
            };
            assert_eq!(renumbered.check(), base);
        }
    }
}

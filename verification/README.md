# oskernel

The deadlock detection and the synchronisation and process syscalls of a
small teaching kernel, verified with Verus.

- `src/detector_model.rs`: the abstract state of a deadlock detector (the
  available / allocation / need matrices of the banker's algorithm), what a
  deadlock is (no order in which every thread can finish), the state changes
  of each operation, and the laws: each operation keeps the matrices well
  formed and every resource's total, most operations keep a deadlock-free
  state deadlock-free, some operations undo others, and whether a state is
  deadlocked does not depend on how its threads are numbered.
- `src/deadlock_detector.rs`: `DeadlockDetectorInner::check`, proved to
  answer exactly whether the state is deadlocked, and the `DeadlockDetector`
  operations (`add_thread`, `add_resource`, `claim`, `unclaim`, `request`,
  `release`).
- `src/sync_syscalls.rs`: the mutex, semaphore, condition variable, sleep and
  deadlock-detection syscalls over the synchronisation state of a process.
  The blocking part of a lock, unlock, up or down is the caller's next step
  after the syscall has decided. A thread that had to wait for a mutex
  reports, with `mutex_lock_acquired`, that it has taken it, so that the
  detector records it as the holder. With detection on, a lock or down is
  refused only when waiting would deadlock.
- `src/process_syscalls.rs`: `sys_get_time`, which writes the time into the
  pieces of user memory that hold the caller's `TimeVal`; the argument
  checks of `sys_mmap`, `sys_munmap` and `sys_sbrk` around the address-space
  operations they are given; and `sys_trace`, which chooses by request
  between reading a user byte, writing one, and counting syscalls, and
  checks the page's flags before any access.

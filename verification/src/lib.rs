pub mod detector_model;
pub mod deadlock_detector;
pub mod sync_syscalls;
pub mod process_syscalls;

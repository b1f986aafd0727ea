//! Verified core of a small teaching kernel: a flat filesystem with hard
//! links, and synchronization primitives guarded by Banker's-algorithm
//! deadlock detection.
pub mod resmon;
pub mod sync;
pub mod mutex;
pub mod semaphore;
pub mod task;
pub mod block_cache;
pub mod efs;
pub mod vfs;
pub mod persist;
pub mod syscall;

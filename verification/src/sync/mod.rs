//! Synchronisation between threads.

pub mod atomic_option;
pub mod barrier;
pub mod channel;
pub mod oneshot;
pub mod sleepers;
pub mod spinlock;

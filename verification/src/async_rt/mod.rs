//! The scheduling core of a small async runtime.
//!
//! Polling futures and running threads is left to the caller; everything that
//! is decided about a task, its queue and its join handle is decided here.

pub mod atomic_waker;
pub mod join_handle;
pub mod queue;
pub mod runtime;
pub mod schedule;
pub mod task;

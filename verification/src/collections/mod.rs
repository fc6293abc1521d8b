//! Data structures.

pub mod ledger;
pub mod ringbuffer;
pub mod traffic;

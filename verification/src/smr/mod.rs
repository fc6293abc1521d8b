//! Safe memory reclamation.

pub mod hazard_ptrs;
pub mod laws;
pub mod reclaim;

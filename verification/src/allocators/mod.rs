//! Memory pools.

pub mod agreement;
pub mod calls;
pub mod crowd;
pub mod floor;
pub mod freelist;
pub mod laws;
pub mod layout;
pub mod pool;
pub mod stack;
pub mod trade;

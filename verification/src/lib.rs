//! Building blocks for applications: tagged pointers, hazard pointers, a pool
//! of memory buffers, a ring buffer and the channel on top of it, a
//! page-organised slab store and the scheduling core of a small async runtime.
//!
//! Everything here is verified. Shared memory is represented by exclusive
//! values: an operation that several threads may run at once is also offered
//! as a sequence of steps, each of which performs exactly one atomic access.

pub mod allocators;
pub mod async_rt;
pub mod collections;
pub mod hazard_ptrs;
pub mod num;
pub mod order;
pub mod pagemgr;
pub mod ptr;
pub mod simd;
pub mod smr;
pub mod sync;

# milkyapps_core

Building blocks for applications, verified with Verus:

- `ptr`: pointers that carry a 16-bit tag
- `collections`: a bounded queue for many producers and consumers
- `smr`, `hazard_ptrs`: safe memory reclamation with hazard pointers
- `allocators`: a pool of fixed-size buffers on a tagged stack
- `sync`: spinlock, single-value cell, barrier, oneshot and bounded channels
- `async_rt`: tasks, their queue, wakers and join handles
- `pagemgr`: a store of size-classed slots in pages, with its file format
- `simd`: search in a slice of flags

Some operations on memory that threads share exist twice: as a method that runs
without interference, and taken apart into steps of one access each. These are
the pushes and pops of the queue and of the stack, reclamation, the requests and
returns of the pool (`allocators::calls`), the sends and receives of a channel,
the registration of a waker, the poll of a join handle, and the wakes and runs
of a task. The laws about concurrent use are stated over these steps, for any
number of threads and any order. What one operation must guarantee is in its
`ensures`; what holds across operations is in the `laws` modules and next to the
types, for threads on one pool in `allocators::agreement`.

Addresses are plain integers in the library. `app/` puts the library on real
memory, files and threads.

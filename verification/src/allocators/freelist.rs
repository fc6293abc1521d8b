//! A pool of fixed-size memory buffers.
//!
//! Every buffer is preceded by a node through which the pool links it; the
//! address of a buffer is that of its node plus a fixed offset. The memory
//! itself comes from and goes back to the caller: [`Freelist::reserve`] says
//! when a new buffer is wanted, [`Freelist::adopt`] takes one in, and released
//! buffers are handed over by the address of their nodes.
//!
//! These methods run without interference. The module `calls` takes requests and
//! returns apart into single accesses, for pools that threads share.

use super::layout;
use super::layout::{Layout, LayoutError};
use super::pool;
use super::pool::PoolView;
use super::stack;
use super::stack::{Node, TaggedStack};
use crate::num;
use crate::order;
use crate::ptr;
use crate::ptr::TaggedPtr;
use crate::smr::hazard_ptrs::{HazardPointers, HazardView, Local};
use vstd::prelude::*;
use vstd::set_lib::*;

verus! {

/// Size of a node.
pub const NODE_SIZE: usize = 8;

/// Alignment of a node.
pub const NODE_ALIGN: usize = 8;

/// How many buffers a new pool will own at most.
pub const ALLOC_MAX: usize = 1024;

/// How many buffers a new pool keeps for reuse at most.
pub const LIST_MAX: usize = 1024;

/// How many buffers of a new pool may wait for release.
pub const RETIRED_MAX: usize = 4;

/// How many operations may run on a new pool at the same time.
pub const HANDLES: usize = 1024;

/// How many nodes one operation may protect.
pub const SLOTS: usize = 16;

/// What a request for a buffer comes to.
pub enum Reservation {
    /// A buffer for reuse.
    Buffer(TaggedPtr<()>),
    /// The pool may grow: a new buffer is to be adopted.
    Grow,
    /// The pool owns as many buffers as it may, and none is available.
    Exhausted,
}

/// A pool of fixed-size memory buffers.
///
/// Buffers returned via [`Freelist::dealloc`] are recycled and handed back out
/// by [`Freelist::reserve`]. When the pool holds more buffers than it needs,
/// the excess is released.
///
/// The pool caps the total number of buffers it will own; once that cap is
/// reached [`Freelist::reserve`] gives none until buffers are returned.
pub struct Freelist {
    pub stack: TaggedStack,
    /// The layout of a buffer.
    pub layout: Layout,
    /// The layout of a node with its buffer.
    pub record: Layout,
    pub offset: usize,
    pub qty_allocated: usize,
    pub qty_in_list: usize,
    pub qty_retired: usize,
    pub alloc_max: usize,
    pub list_max: usize,
    pub retired_max: usize,
    pub hp: HazardPointers<Node>,
    pub held: Ghost<Set<u64>>,
}

impl View for Freelist {
    type V = PoolView;

    open spec fn view(&self) -> PoolView {
        PoolView {
            list: self.stack@,
            hp: self.hp@,
            allocated: self.qty_allocated as int,
            in_list: self.qty_in_list as int,
            retired: self.qty_retired as int,
            held: self.held@,
            layout: self.layout,
            record: self.record,
            offset: self.offset as int,
            alloc_max: self.alloc_max as int,
            list_max: self.list_max as int,
            retired_max: self.retired_max as int,
        }
    }
}

/// Acquiring the first handle, protecting through it and releasing it leaves
/// only what was retired meanwhile.
proof fn lemma_handle_released(before: HazardView, during: HazardView)
    requires
        pool::tidy(before),
        during.available == before.available.update(0, false),
        during.slots.len() == before.slots.len(),
        during.slots[0].len() == before.slots[0].len(),
        forall|k: int| 0 < k < before.slots.len() ==> during.slots[k] == #[trigger] before.slots[k],
    ensures
        during.finished(0) == (HazardView { retired: during.retired, ..before }),
{
    let after = during.finished(0);
    assert(after.available =~= before.available);
    assert(after.slots[0] =~= before.slots[0]);
    assert(after.slots =~= before.slots);
}

/// Hands buffers over to the caller.
fn hand_over(stack: &mut TaggedStack, nodes: &Vec<u64>, released: &mut Vec<u64>)
    requires
        old(stack).wf(),
        forall|k: int| 0 <= k < nodes@.len() ==> !stack::stacked(old(stack)@, #[trigger] nodes@[k]),
    ensures
        final(stack).wf(),
        final(stack)@ == old(stack)@,
        final(released)@ == old(released)@ + nodes@,
{
    let ghost given = released@;
    let mut i: usize = 0;
    while i < nodes.len()
        invariant
            i <= nodes@.len(),
            stack.wf(),
            stack@ == old(stack)@,
            forall|k: int| 0 <= k < nodes@.len() ==> !stack::stacked(stack@, #[trigger] nodes@[k]),
            released@ == given + nodes@.take(i as int),
        decreases nodes@.len() - i,
    {
        let node: u64 = nodes[i];
        released.push(node);
        stack.forget(node);
        i = i + 1;
        assert(released@ =~= given + nodes@.take(i as int));
    }
    assert(nodes@.take(i as int) =~= nodes@);
}

impl Freelist {
    /// The pool is in order.
    pub open spec fn wf(&self) -> bool {
        self.stack.wf() && self.hp.wf() && self@.ok()
    }

    /// Creates a pool that recycles buffers of `layout`.
    ///
    /// Every buffer that this pool lends is at least as large and well-aligned
    /// as `layout`.
    ///
    /// # Errors
    ///
    /// Fails if `layout` cannot be combined with the layout of a node.
    pub fn new(layout: Layout) -> (r: Result<Freelist, LayoutError>)
        requires
            layout.wf(),
        ensures
            ({
                let offset = num::round_up(NODE_SIZE as int, layout.align as int);
                let align = if layout.align <= NODE_ALIGN {
                    NODE_ALIGN
                } else {
                    layout.align
                };
                &&& r is Ok <==> layout::valid(offset + layout.size, align as int)
                &&& r matches Ok(pool) ==> {
                    &&& pool.wf()
                    &&& pool.layout == layout
                    &&& pool.record.size == offset + layout.size
                    &&& pool.record.align == align
                    &&& pool@.offset == offset
                    &&& pool@.list.len() == 0
                    &&& pool@.allocated == 0
                    &&& pool@.in_list == 0
                    &&& pool@.retired == 0
                    &&& pool@.held == Set::<u64>::empty()
                    &&& pool@.alloc_max == ALLOC_MAX
                    &&& pool@.list_max == LIST_MAX
                    &&& pool@.retired_max == RETIRED_MAX
                    &&& pool@.hp.available == Seq::new(HANDLES as nat, |l: int| true)
                    &&& pool@.alloc_max == 1024
                    &&& pool@.list_max == 1024
                    &&& pool@.retired_max == 4
                    &&& pool@.hp.available.len() == 1024
                    &&& forall|l: int|
                        0 <= l < 1024 ==> (#[trigger] pool@.hp.slots[l]).len() == 16
                    &&& 8 <= offset < 8 + layout.align
                    &&& offset % (layout.align as int) == 0
                    &&& pool.record.align as int % layout.align as int == 0
                    &&& pool.record.align as int % 8 == 0
                }
            }),
    {
        let node: Layout = Layout { size: NODE_SIZE, align: NODE_ALIGN };
        proof {
            layout::lemma_eight();
            num::lemma_small_powers();
            num::lemma_round_up(NODE_SIZE as int, layout.align as int);
            if layout.align <= NODE_ALIGN {
                num::lemma_power_divides(layout.align as int, NODE_ALIGN as int);
            } else {
                num::lemma_power_divides(layout.align as int, layout.align as int);
                num::lemma_power_divides(NODE_ALIGN as int, layout.align as int);
            }
        }
        match node.extend(layout) {
            Err(e) => Err(e),
            Ok((record, offset)) => {
                let r = Freelist {
                    stack: TaggedStack::new(),
                    layout,
                    record,
                    offset,
                    qty_allocated: 0,
                    qty_in_list: 0,
                    qty_retired: 0,
                    alloc_max: ALLOC_MAX,
                    list_max: LIST_MAX,
                    retired_max: RETIRED_MAX,
                    hp: HazardPointers::with_capacity(HANDLES, SLOTS),
                    held: Ghost(Set::empty()),
                };
                proof {
                    reveal(PoolView::ok);
                    assert forall|p: u64| !#[trigger] r@.hp.waits(p) by {
                        if r@.hp.waits(p) {
                            let l = choose|l: int|
                                0 <= l < r@.hp.retired.len() && (#[trigger] r@.hp.retired[l]).contains(
                                    p,
                                );
                        }
                    }
                    assert(r@.waiting() =~= Set::<u64>::empty());
                }
                Ok(r)
            },
        }
    }

    /// The layout of a buffer that this pool was created with.
    ///
    /// Every buffer that it lends satisfies this layout.
    pub fn layout(&self) -> (r: &Layout)
        ensures
            *r == self.layout,
    {
        &self.layout
    }

    /// Releases what waits for it and is not protected.
    fn deallocate_retired(&mut self, released: &mut Vec<u64>)
        requires
            old(self).wf(),
        ensures
            final(self).wf(),
            final(self)@ == old(self)@.deallocated(),
            final(released)@ == old(released)@ + order::in_order(old(self)@.releasable()),
            order::in_order(old(self)@.releasable()).len() == old(self)@.releasable().len(),
    {
        let ghost v = self@;
        proof {
            reveal(PoolView::ok);
        }
        let mut ptrs: Vec<u64> = Vec::new();
        self.hp.reclaim(&mut ptrs);
        proof {
            pool::lemma_waits_reclaimed(v);
            pool::lemma_deallocated_ok(v);
            assert(ptrs@.to_set() =~= v.releasable());
            order::lemma_in_order(ptrs@);
            assert(ptrs@.len() == v.releasable().len());
        }
        let n: usize = ptrs.len();
        self.qty_retired = self.qty_retired - n;
        self.qty_allocated = self.qty_allocated - n;
        proof {
            assert forall|k: int| 0 <= k < n implies !stack::stacked(
                self.stack@,
                #[trigger] ptrs@[k],
            ) by {
                assert(ptrs@.contains(ptrs@[k]));
                assert(v.hp.waits(ptrs@[k]));
                if stack::stacked(v.list, ptrs@[k]) {
                    let i = choose|i: int|
                        0 <= i < v.list.len() && stack::node_of(#[trigger] v.list[i]) == ptrs@[k];
                }
            }
        }
        hand_over(&mut self.stack, &ptrs, released);
        assert(self@ =~= v.deallocated());
    }

    /// Returns `buffer` to the pool for later reuse.
    ///
    /// `buffer` must come from this pool and must not already have been
    /// returned. A null pointer is a no-op.
    ///
    /// Returns `true` if the buffer was accepted back, or `false` if `buffer`
    /// was null.
    ///
    /// If the pool already holds as many buffers as it wants, the buffer waits
    /// for release; what is released is appended to `released`.
    pub fn dealloc(&mut self, buffer: TaggedPtr<()>, released: &mut Vec<u64>) -> (r: bool)
        requires
            old(self).wf(),
            buffer.addr() != 0 ==> old(self)@.offset <= buffer.addr() && old(self)@.held.contains(
                (buffer.addr() - old(self)@.offset) as u64,
            ),
        ensures
            final(self).wf(),
            r == (buffer.addr() != 0),
            !r ==> final(self)@ == old(self)@ && final(released)@ == old(released)@,
            r ==> {
                let word = ptr::packed(
                    (buffer.addr() - old(self)@.offset) as u64,
                    ((buffer.tag() + 1) % 0x1_0000) as u16,
                );
                let (after, gone) = old(self)@.returned(word);
                final(self)@ == after && final(released)@ == old(released)@ + gone
            },
    {
        if buffer.ptr() == 0 {
            return false;
        }
        let ghost v = self@;
        proof {
            reveal(PoolView::ok);
        }
        let mut node: TaggedPtr<Node> = buffer.byte_sub(self.offset as u64);
        node.wrapping_add_tag(1);
        let ghost word = node.inner;
        proof {
            pool::lemma_returned_ok(v, word);
        }
        let local: Local<Node> = self.acquire();
        assert(self.hp@.slots[0][0] == 0);
        if self.qty_in_list >= self.list_max {
            if let Some(guard) = local.protect(&mut self.hp, node.ptr()) {
                let _ = guard.retire(&mut self.hp);
            }
            proof {
                lemma_handle_released(v.hp, self.hp@);
                pool::lemma_retired_one_ok(v, stack::node_of(word));
                pool::lemma_waits_retired(v.hp, 0, stack::node_of(word));
            }
            local.finish(&mut self.hp);
            self.qty_retired = self.qty_retired + 1;
            self.held = Ghost(self.held@.remove(stack::node_of(word)));
            proof {
                assert(self@ =~= v.retired_one(stack::node_of(word)));
            }
            if self.qty_retired > self.retired_max {
                self.deallocate_retired(released);
            }
            assert(released@ =~= old(released)@ + v.returned(word).1);
            return true;
        }
        let head: TaggedPtr<Node> = self.stack.head();
        let guard = local.protect(&mut self.hp, head.ptr());
        proof {
            if stack::stacked(self.stack@, stack::node_of(word)) {
                let k = choose|k: int|
                    0 <= k < v.list.len() && stack::node_of(#[trigger] v.list[k])
                        == stack::node_of(word);
            }
        }
        self.stack.push(node);
        self.qty_in_list = self.qty_in_list + 1;
        if let Some(guard) = guard {
            guard.unprotect(&mut self.hp);
        }
        proof {
            lemma_handle_released(v.hp, self.hp@);
        }
        local.finish(&mut self.hp);
        self.held = Ghost(self.held@.remove(stack::node_of(word)));
        proof {
            assert(self@ =~= v.returned(word).0);
            assert(released@ =~= old(released)@ + v.returned(word).1);
        }
        true
    }

    /// The first handle of the registry.
    fn acquire(&mut self) -> (r: Local<Node>)
        requires
            old(self).wf(),
        ensures
            final(self).hp.wf(),
            final(self).stack == old(self).stack,
            r.id == 0,
            final(self).hp.holds(r),
            final(self)@ == (PoolView {
                hp: HazardView {
                    available: old(self)@.hp.available.update(0, false),
                    ..old(self)@.hp
                },
                ..old(self)@
            }),
    {
        proof {
            reveal(PoolView::ok);
            assert(self.hp@.available[0]);
            assert(self.hp@.is_first_available(0));
        }
        self.hp.local().unwrap()
    }

    /// Lends the next buffer of the list.
    fn lend_top(&mut self) -> (r: TaggedPtr<()>)
        requires
            old(self).wf(),
            old(self)@.list.len() > 0,
        ensures
            final(self).wf(),
            final(self)@ == old(self)@.popped(),
            r.addr() == stack::node_of(old(self)@.list.last()) + old(self)@.offset,
            r.tag() == ptr::tag_of(old(self)@.list.last()),
    {
        let ghost v = self@;
        let ghost top = v.list.last();
        proof {
            reveal(PoolView::ok);
            pool::lemma_popped_ok(v);
            assert(v.list[v.list.len() - 1] == top);
        }
        let mut lent: TaggedPtr<Node> = self.stack.head();
        let local: Local<Node> = self.acquire();
        assert(self.hp@.slots[0][0] == 0);
        let guard = local.protect(&mut self.hp, lent.ptr());
        if let Some(popped) = self.stack.pop() {
            lent = popped;
        }
        self.qty_in_list = self.qty_in_list - 1;
        if let Some(guard) = guard {
            guard.unprotect(&mut self.hp);
        }
        proof {
            lemma_handle_released(v.hp, self.hp@);
        }
        local.finish(&mut self.hp);
        self.held = Ghost(self.held@.insert(stack::node_of(top)));
        assert(self@ =~= v.popped());
        lent.byte_add(self.offset as u64)
    }

    /// Takes a buffer back that nobody uses any more.
    fn take_back(&mut self, node: u64, released: &mut Vec<u64>)
        requires
            old(self).wf(),
            old(self)@.held.contains(node),
        ensures
            final(self).wf(),
            final(self)@ == old(self)@.returned(ptr::packed(node, 1)).0,
            final(released)@ == old(released)@ + old(self)@.returned(ptr::packed(node, 1)).1,
    {
        proof {
            pool::lemma_held_fits(self@, node);
            ptr::packed_keeps_address_and_tag((node + self.offset) as u64, 0);
        }
        let buffer: TaggedPtr<()> = TaggedPtr::new(node + self.offset as u64, 0);
        let _ = self.dealloc(buffer, released);
    }

    /// Takes several buffers back that nobody uses any more.
    fn recycle(&mut self, nodes: &Vec<u64>, released: &mut Vec<u64>)
        requires
            old(self).wf(),
            nodes@.no_duplicates(),
            forall|i: int| 0 <= i < nodes@.len() ==> old(self)@.held.contains(#[trigger] nodes@[i]),
        ensures
            final(self).wf(),
            final(self)@ == old(self)@.returned_all(nodes@).0,
            final(released)@ == old(released)@ + old(self)@.returned_all(nodes@).1,
    {
        let ghost v = self@;
        let mut i: usize = 0;
        assert(nodes@.take(0) =~= Seq::empty());
        assert(released@ =~= old(released)@ + v.returned_all(nodes@.take(0)).1);
        while i < nodes.len()
            invariant
                i <= nodes@.len(),
                self.wf(),
                v.ok(),
                nodes@.no_duplicates(),
                forall|k: int| 0 <= k < nodes@.len() ==> v.held.contains(#[trigger] nodes@[k]),
                self@ == v.returned_all(nodes@.take(i as int)).0,
                released@ == old(released)@ + v.returned_all(nodes@.take(i as int)).1,
            decreases nodes@.len() - i,
        {
            let node: u64 = nodes[i];
            let ghost done = nodes@.take(i as int);
            proof {
                assert forall|k: int| 0 <= k < done.len() implies v.held.contains(
                    #[trigger] done[k],
                ) by {
                    assert(done[k] == nodes@[k]);
                }
                pool::lemma_returned_all_ok(v, done);
                assert(!done.contains(node)) by {
                    if done.contains(node) {
                        let k = choose|k: int| 0 <= k < done.len() && done[k] == node;
                        assert(nodes@[k] == node);
                    }
                }
                assert(v.held.contains(nodes@[i as int]));
            }
            self.take_back(node, released);
            proof {
                let next = nodes@.take(i + 1);
                assert(next.drop_last() =~= done);
                assert(next.last() == node);
                assert(released@ =~= old(released)@ + v.returned_all(next).1);
            }
            i = i + 1;
        }
        assert(nodes@.take(i as int) =~= nodes@);
    }

    /// Obtains a buffer, or says why there is none.
    ///
    /// A previously returned buffer is reused when one is available; otherwise
    /// the pool grows, up to its maximum. A pool that may not grow uses the
    /// buffers again that wait for release; what is released on this occasion
    /// is appended to `released`.
    pub fn reserve(&mut self, released: &mut Vec<u64>) -> (r: Reservation)
        requires
            old(self).wf(),
        ensures
            final(self).wf(),
            r matches Reservation::Buffer(b) ==> old(self)@.can_lend(b.addr()),
            ({
                let v = old(self)@;
                let (again, gone) = v.recycled();
                if v.list.len() > 0 {
                    &&& r matches Reservation::Buffer(b)
                    &&& b.addr() == stack::node_of(v.list.last()) + v.offset
                    &&& b.tag() == ptr::tag_of(v.list.last())
                    &&& final(self)@ == v.popped()
                    &&& final(released)@ == old(released)@
                } else if v.allocated < v.alloc_max {
                    &&& r is Grow
                    &&& final(self)@ == v
                    &&& final(released)@ == old(released)@
                } else if v.releasable().len() == 0 {
                    &&& r is Exhausted
                    &&& final(self)@ == v.deallocated()
                    &&& final(released)@ == old(released)@
                } else {
                    &&& r matches Reservation::Buffer(b)
                    &&& again.list.len() > 0
                    &&& b.addr() == stack::node_of(again.list.last()) + v.offset
                    &&& b.tag() == ptr::tag_of(again.list.last())
                    &&& final(self)@ == again.popped()
                    &&& final(released)@ == old(released)@ + gone
                }
            }),
    {
        let ghost v = self@;
        proof {
            reveal(PoolView::ok);
        }
        let local: Local<Node> = self.acquire();
        if self.stack.head().ptr() != 0 {
            proof {
                lemma_handle_released(v.hp, self.hp@);
            }
            local.finish(&mut self.hp);
            assert(self@ =~= v);
            proof {
                pool::lemma_top_can_be_lent(v);
                assert(v.list[v.list.len() - 1] == v.list.last());
            }
            return Reservation::Buffer(self.lend_top());
        }
        if self.qty_allocated < self.alloc_max {
            proof {
                lemma_handle_released(v.hp, self.hp@);
            }
            local.finish(&mut self.hp);
            assert(self@ =~= v);
            return Reservation::Grow;
        }
        let mut nodes: Vec<u64> = Vec::new();
        let ghost during = self@;
        self.hp.reclaim(&mut nodes);
        proof {
            pool::lemma_waits_reclaimed(v);
            pool::lemma_deallocated_ok(v);
            lemma_same_reclamation(v, during);
            assert(nodes@.to_set() =~= v.releasable());
            order::lemma_in_order(nodes@);
            lemma_handle_released(v.hp.reclaimed(), self.hp@);
        }
        local.finish(&mut self.hp);
        if nodes.len() == 0 {
            assert(self@ =~= v.deallocated());
            return Reservation::Exhausted;
        }
        self.qty_retired = self.qty_retired - nodes.len();
        self.held = Ghost(self.held@.union(nodes@.to_set()));
        proof {
            assert(self@ =~= v.recalled());
            pool::lemma_recalled_ok(v);
            assert forall|i: int| 0 <= i < nodes@.len() implies self@.held.contains(
                #[trigger] nodes@[i],
            ) by {
                assert(nodes@.to_set().contains(nodes@[i]));
            }
            pool::lemma_returned_all_ok(self@, nodes@);
        }
        self.recycle(&nodes, released);
        proof {
            let again = self@;
            assert forall|p: u64| #[trigger] v.held.contains(p) implies again.held.contains(p) by {
                assert(v.recalled().held.contains(p));
                if nodes@.contains(p) {
                    assert(nodes@.to_set().contains(p));
                    assert(v.hp.waits(p));
                }
            }
            pool::lemma_top_can_be_lent(again);
            assert(again.list[again.list.len() - 1] == again.list.last());
        }
        Reservation::Buffer(self.lend_top())
    }

    /// Takes a new buffer in and lends it. `node` is the address of the memory,
    /// where the node of the buffer stands; the memory has the layout of a
    /// record and is part of no other buffer of the pool.
    pub fn adopt(&mut self, node: u64) -> (r: TaggedPtr<()>)
        requires
            old(self).wf(),
            old(self)@.fits(node),
            forall|p: u64| #[trigger] old(self)@.owns(p) ==> old(self)@.apart(node, p),
            old(self)@.allocated < usize::MAX,
        ensures
            final(self).wf(),
            final(self)@ == old(self)@.adopted(node),
            r.addr() == node + old(self)@.offset,
            old(self)@.can_lend(r.addr()),
            r.tag() == 0,
    {
        proof {
            pool::lemma_adopted_ok(self@, node);
            ptr::packed_keeps_address_and_tag((node + self.offset) as u64, 0);
        }
        self.qty_allocated = self.qty_allocated + 1;
        self.held = Ghost(self.held@.insert(node));
        TaggedPtr::new(node + self.offset as u64, 0)
    }

    /// The buffers for reuse, the next one first.
    pub fn items(&self) -> (r: Vec<TaggedPtr<Node>>)
        requires
            self.wf(),
        ensures
            r@.len() == self@.list.len(),
            forall|i: int|
                0 <= i < r@.len() ==> (#[trigger] r@[i]).inner == self@.list[self@.list.len() - 1
                    - i],
    {
        self.stack.items()
    }

    /// Gives everything back that the pool keeps: first what waits for release
    /// and is not protected, then the buffers for reuse, the next one first.
    pub fn drain(&mut self, released: &mut Vec<u64>)
        requires
            old(self).wf(),
        ensures
            final(self).wf(),
            ({
                let v = old(self)@;
                let n = v.list.len();
                let freed = order::in_order(v.releasable());
                &&& final(self)@ == (PoolView {
                    list: Seq::empty(),
                    in_list: 0,
                    allocated: v.allocated - freed.len() - n,
                    ..v.deallocated()
                })
                &&& final(released)@ == old(released)@ + freed + Seq::new(
                    n,
                    |i: int| stack::node_of(v.list[n - 1 - i]),
                )
            }),
    {
        let ghost v = self@;
        self.deallocate_retired(released);
        let ghost w = self@;
        self.stack.drain(released);
        proof {
            reveal(PoolView::ok);
        }
        self.qty_allocated = self.qty_allocated - self.qty_in_list;
        self.qty_in_list = 0;
        proof {
            assert(self@.waiting() =~= w.waiting());
            pool::lemma_still_spread(w, self@);
            assert forall|p: u64| #[trigger] self@.held.contains(p) implies self@.fits(p) by {
                assert(w.held.contains(p));
            }
            assert forall|p: u64| #[trigger] self@.hp.waits(p) implies self@.fits(p)
                && !self@.held.contains(p) by {
                assert(w.hp.waits(p));
            }
        }
    }
}

/// Which buffers can be released does not depend on which handles are free.
proof fn lemma_same_reclamation(v: PoolView, during: PoolView)
    requires
        during.hp.slots == v.hp.slots,
        during.hp.retired == v.hp.retired,
    ensures
        forall|p: u64| #[trigger] during.hp.protects(p) <==> v.hp.protects(p),
        forall|p: u64| #[trigger] during.hp.waits(p) <==> v.hp.waits(p),
        during.hp.reclaimed().retired == v.hp.reclaimed().retired,
{
    assert forall|p: u64| #[trigger] during.hp.protects(p) <==> v.hp.protects(p) by {
        if v.hp.protects(p) {
            let (l, s) = choose|l: int, s: int| #[trigger] v.hp.publishes(l, s, p);
            assert(during.hp.publishes(l, s, p));
        }
        if during.hp.protects(p) {
            let (l, s) = choose|l: int, s: int| #[trigger] during.hp.publishes(l, s, p);
            assert(v.hp.publishes(l, s, p));
        }
    }
    assert forall|l: int| 0 <= l < v.hp.retired.len() implies during.hp.kept(v.hp.retired[l])
        == #[trigger] v.hp.kept(v.hp.retired[l]) by {
        let a = |p: u64| during.hp.protects(p);
        let b = |p: u64| v.hp.protects(p);
        assert(a =~= b);
    }
    assert(during.hp.reclaimed().retired =~= v.hp.reclaimed().retired);
}

} // verus!

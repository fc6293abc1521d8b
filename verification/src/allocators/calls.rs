//! Requests and returns of buffers, one access to shared memory at a time.
//!
//! [`TakeOp`] asks a pool for a buffer and [`GiveOp`] returns one. Each call of
//! `step` performs one access to what the threads share: the stack, a counter,
//! or the registry of hazard pointers. Other threads may act between any two
//! steps.

use super::stack;
use super::stack::{Node, PopOp, PopStep, PushOp, PushStep, StackView, StackWords};
use crate::num;
use crate::order;
use crate::ptr;
use crate::ptr::TaggedPtr;
use crate::smr::hazard_ptrs::{Guard, HazardPointers, HazardView, Local};
use crate::smr::reclaim;
use crate::smr::reclaim::{Reclaim, ReclaimAt, ReclaimState};
use core::marker::PhantomData;
use vstd::prelude::*;
use vstd::std_specs::hash::*;

verus! {

/// What the threads on a pool share, as a value.
#[verifier::ext_equal]
pub struct PoolState {
    pub words: StackView,
    pub hp: HazardView,
    pub allocated: usize,
    pub in_list: usize,
    pub retired: usize,
    pub alloc_max: usize,
    pub list_max: usize,
    pub retired_max: usize,
}

/// What the threads on a pool share.
pub struct PoolWords {
    pub stack: StackWords,
    pub hp: HazardPointers<Node>,
    pub allocated: usize,
    pub in_list: usize,
    pub retired: usize,
    pub alloc_max: usize,
    pub list_max: usize,
    pub retired_max: usize,
}

impl View for PoolWords {
    type V = PoolState;

    open spec fn view(&self) -> PoolState {
        PoolState {
            words: self.stack@,
            hp: self.hp@,
            allocated: self.allocated,
            in_list: self.in_list,
            retired: self.retired,
            alloc_max: self.alloc_max,
            list_max: self.list_max,
            retired_max: self.retired_max,
        }
    }
}

impl PoolWords {
    /// A pool without buffers, for as many calls at the same time as there are
    /// handles. Every call uses one slot of its handle.
    pub fn new(
        handles: usize,
        slots: usize,
        alloc_max: usize,
        list_max: usize,
        retired_max: usize,
    ) -> (r: Self)
        ensures
            r.hp.wf(),
            r@.words.head == 0,
            r@.words.links == Map::<u64, u64>::empty(),
            r@.hp == (HazardView {
                available: Seq::new(handles as nat, |l: int| true),
                slots: Seq::new(handles as nat, |l: int| Seq::new(slots as nat, |s: int| 0u64)),
                retired: Seq::new(handles as nat, |l: int| Seq::empty()),
            }),
            r.allocated == 0,
            r.in_list == 0,
            r.retired == 0,
            r.alloc_max == alloc_max,
            r.list_max == list_max,
            r.retired_max == retired_max,
    {
        PoolWords {
            stack: StackWords::new(),
            hp: HazardPointers::with_capacity(handles, slots),
            allocated: 0,
            in_list: 0,
            retired: 0,
            alloc_max,
            list_max,
            retired_max,
        }
    }
}

/// The state with a handle taken.
pub open spec fn entered(hp: HazardView, l: int) -> HazardView {
    HazardView { available: hp.available.update(l, false), ..hp }
}

/// What a request does next.
#[derive(Clone, Copy, Debug, PartialEq, Eq, Structural)]
pub enum TakeAt {
    /// Tries to take the next handle.
    Acquire,
    /// Goes on with its pop.
    Pop,
    /// Publishes the node that it has seen.
    Publish,
    /// Stops publishing the node, and starts over.
    Withdraw,
    /// Has popped a node: counts one less in the list.
    Count,
    /// Stops publishing the node.
    Clear,
    /// Gives the handle back, all of whose slots are empty.
    Leave,
    /// Found the list empty: reads how many buffers the pool owns.
    Room,
    /// May make the pool grow: gives the handle back.
    LeaveToGrow,
    /// Waits for memory.
    Grow,
    /// Has made a buffer: counts one more.
    Made { word: u64 },
    /// Looks for nodes that can be used again.
    Search,
    /// Has found some: counts so many less that wait.
    Settle,
    /// The nodes that it has found are put back; then it starts over.
    Recycle,
    /// Has found none: gives the handle back.
    LeaveEmpty,
    /// Nothing: it has its buffer.
    Ready { word: u64 },
    /// Nothing: there is no buffer for it.
    Refused,
}

/// The state of a request.
pub struct TakeState {
    pub at: TakeAt,
    pub pop: PopOp,
    /// The handle that it has taken, or tries to take.
    pub local: int,
    pub search: ReclaimState,
    /// The nodes that it has found and still has to put back, in ascending order.
    pub found: Seq<u64>,
}

impl TakeState {
    /// A request that has not begun.
    pub open spec fn start() -> TakeState {
        TakeState {
            at: TakeAt::Acquire,
            pop: PopOp { seen: 0, next: 0, at: PopStep::Load },
            local: 0,
            search: ReclaimState::start(),
            found: Seq::empty(),
        }
    }

    /// Whether the request has a handle.
    pub open spec fn holds(self) -> bool {
        match self.at {
            TakeAt::Acquire | TakeAt::Grow | TakeAt::Made { .. } | TakeAt::Ready { .. }
            | TakeAt::Refused => false,
            _ => true,
        }
    }

    /// What its slot publishes.
    pub open spec fn shows(self) -> u64 {
        match self.at {
            TakeAt::Pop => if self.pop.at != PopStep::Load {
                stack::node_of(self.pop.seen)
            } else {
                0
            },
            TakeAt::Withdraw | TakeAt::Count | TakeAt::Clear => stack::node_of(self.pop.seen),
            _ => 0,
        }
    }

    /// Whether the request can go on from here: its handle is its own, its slot
    /// publishes what it should, the link that it reads is there, and its search
    /// makes sense.
    pub open spec fn fits(self, p: PoolState) -> bool {
        &&& self.holds() ==> handle_fits(self.local, self.shows(), p)
        &&& self.at == TakeAt::Pop && self.pop.at == PopStep::Read ==> p.words.links.dom().contains(
            stack::node_of(self.pop.seen),
        )
        &&& self.at == TakeAt::Search ==> search_fits(self.search, p)
    }
}

/// Whether a call has this handle, and the first slot of the handle publishes
/// this.
pub open spec fn handle_fits(local: int, shows: u64, p: PoolState) -> bool {
    &&& 0 <= local < p.hp.available.len()
    &&& p.hp.available.len() == p.hp.slots.len()
    &&& p.hp.slots[local].len() >= 1
    &&& !p.hp.available[local]
    &&& p.hp.slots[local][0] == shows
}

/// Whether a search makes sense for a pool.
pub open spec fn search_fits(search: ReclaimState, p: PoolState) -> bool {
    &&& search.busy() ==> search.taken.len() > 0 && search.local < p.hp.retired.len()
    &&& search.local <= p.hp.retired.len()
}

/// Where a request goes on after a step of its pop.
pub open spec fn after_pop(at: PopStep) -> TakeAt {
    match at {
        PopStep::Load => TakeAt::Withdraw,
        PopStep::Check => TakeAt::Publish,
        PopStep::Read | PopStep::Swap => TakeAt::Pop,
        PopStep::Done => TakeAt::Count,
        PopStep::Empty => TakeAt::Room,
    }
}

/// One step of a request.
pub open spec fn take_next(op: TakeState, p: PoolState) -> (TakeState, PoolState) {
    match op.at {
        TakeAt::Acquire => if op.local >= p.hp.available.len() {
            (TakeState { at: TakeAt::Refused, ..op }, p)
        } else if p.hp.available[op.local] {
            (
                TakeState { at: TakeAt::Pop, ..op },
                PoolState { hp: entered(p.hp, op.local), ..p },
            )
        } else {
            (TakeState { local: op.local + 1, ..op }, p)
        },
        TakeAt::Pop => {
            let (pop, words) = stack::pop_next(op.pop, p.words);
            (TakeState { at: after_pop(pop.at), pop, ..op }, PoolState { words, ..p })
        },
        TakeAt::Publish => (
            TakeState { at: TakeAt::Pop, ..op },
            PoolState { hp: p.hp.with_slot(op.local, 0, stack::node_of(op.pop.seen)), ..p },
        ),
        TakeAt::Withdraw => (
            TakeState { at: TakeAt::Pop, ..op },
            PoolState { hp: p.hp.with_slot(op.local, 0, 0), ..p },
        ),
        TakeAt::Count => (
            TakeState { at: TakeAt::Clear, ..op },
            PoolState { in_list: num::wrap(p.in_list - 1), ..p },
        ),
        TakeAt::Clear => (
            TakeState { at: TakeAt::Leave, ..op },
            PoolState { hp: p.hp.with_slot(op.local, 0, 0), ..p },
        ),
        TakeAt::Leave => (
            TakeState { at: TakeAt::Ready { word: op.pop.seen }, ..op },
            PoolState { hp: p.hp.finished(op.local), ..p },
        ),
        TakeAt::Room => if p.allocated < p.alloc_max {
            (TakeState { at: TakeAt::LeaveToGrow, ..op }, p)
        } else {
            (TakeState { at: TakeAt::Search, search: ReclaimState::start(), ..op }, p)
        },
        TakeAt::LeaveToGrow => (
            TakeState { at: TakeAt::Grow, ..op },
            PoolState { hp: p.hp.finished(op.local), ..p },
        ),
        TakeAt::Made { word } => (
            TakeState { at: TakeAt::Ready { word }, ..op },
            PoolState { allocated: num::wrap(p.allocated + 1), ..p },
        ),
        TakeAt::Search => {
            let (search, hp) = reclaim::reclaim_next(op.search, p.hp);
            let found = order::in_order(search.handed.to_set());
            let after = if search.at != ReclaimAt::Done {
                TakeState { search, ..op }
            } else if found.len() == 0 {
                TakeState { at: TakeAt::LeaveEmpty, search, found, ..op }
            } else {
                TakeState { at: TakeAt::Settle, search, found, ..op }
            };
            (after, PoolState { hp, ..p })
        },
        TakeAt::Settle => (
            TakeState { at: TakeAt::Recycle, ..op },
            PoolState { retired: num::wrap(p.retired - op.found.len()), ..p },
        ),
        TakeAt::Recycle => if op.found.len() > 0 {
            (op, p)
        } else {
            (
                TakeState {
                    at: TakeAt::Pop,
                    pop: PopOp { seen: 0, next: 0, at: PopStep::Load },
                    ..op
                },
                p,
            )
        },
        TakeAt::LeaveEmpty => (
            TakeState { at: TakeAt::Refused, ..op },
            PoolState { hp: p.hp.finished(op.local), ..p },
        ),
        TakeAt::Grow | TakeAt::Ready { .. } | TakeAt::Refused => (op, p),
    }
}

/// A request in progress.
pub struct TakeOp {
    pub at: TakeAt,
    pub pop: PopOp,
    pub local: usize,
    pub search: Reclaim,
    pub found: Vec<u64>,
}

impl View for TakeOp {
    type V = TakeState;

    open spec fn view(&self) -> TakeState {
        TakeState {
            at: self.at,
            pop: self.pop,
            local: self.local as int,
            search: self.search@,
            found: self.found@,
        }
    }
}

/// The nodes that a search has handed out, in ascending order.
fn in_order(handed: &Vec<u64>) -> (r: Vec<u64>)
    ensures
        r@ == order::in_order(handed@.to_set()),
{
    let sorted: Vec<u64> = order::sorted(handed);
    let r: Vec<u64> = order::without_repeats(&sorted);
    proof {
        assert forall|x: u64| r@.contains(x) <==> handed@.contains(x) by {
            assert(sorted@.contains(x) <==> handed@.contains(x));
        }
        assert(r@.to_set() =~= handed@.to_set());
        order::lemma_in_order(r@);
    }
    r
}

/// Takes a handle, if it is free.
fn enter(hp: &mut HazardPointers<Node>, local: usize) -> (r: bool)
    requires
        old(hp).wf(),
        local < old(hp)@.available.len(),
    ensures
        final(hp).wf(),
        r == old(hp)@.available[local as int],
        final(hp)@ == if r {
            entered(old(hp)@, local as int)
        } else {
            old(hp)@
        },
{
    if hp.is_available[local] {
        hp.is_available.set(local, false);
        assert(hp@.slots =~= old(hp)@.slots);
        assert(hp@.retired =~= old(hp)@.retired);
        true
    } else {
        false
    }
}

/// Stops publishing through the first slot of a handle.
fn withdraw(hp: &mut HazardPointers<Node>, local: usize, node: u64)
    requires
        old(hp).wf(),
        old(hp)@.publishes(local as int, 0, node),
    ensures
        final(hp).wf(),
        final(hp)@ == old(hp)@.with_slot(local as int, 0, 0),
{
    let guard: Guard<Node> = Guard { local, id: 0, ptr: node, target: PhantomData };
    guard.unprotect(hp);
    assert(hp@.slots =~= old(hp)@.with_slot(local as int, 0, 0).slots) by {
        if node == 0 {
            assert(old(hp)@.slots[local as int].update(0, 0) =~= old(hp)@.slots[local as int]);
        }
    }
}

/// Publishes a node through the first slot of a handle that publishes nothing.
fn publish(hp: &mut HazardPointers<Node>, local: usize, node: u64)
    requires
        old(hp).wf(),
        local < old(hp)@.available.len(),
        !old(hp)@.available[local as int],
        old(hp)@.publishes(local as int, 0, 0),
    ensures
        final(hp).wf(),
        final(hp)@ == old(hp)@.with_slot(local as int, 0, node),
{
    let handle: Local<Node> = Local { id: local, target: PhantomData };
    assert(old(hp)@.slots[local as int][0] == 0);
    let _ = handle.protect(hp, node);
    assert(hp@.slots =~= old(hp)@.with_slot(local as int, 0, node).slots) by {
        if node == 0 {
            assert(old(hp)@.slots[local as int].update(0, 0) =~= old(hp)@.slots[local as int]);
        }
    }
}

/// Gives a handle back.
fn leave(hp: &mut HazardPointers<Node>, local: usize)
    requires
        old(hp).wf(),
        local < old(hp)@.available.len(),
        !old(hp)@.available[local as int],
    ensures
        final(hp).wf(),
        final(hp)@ == old(hp)@.finished(local as int),
{
    let handle: Local<Node> = Local { id: local, target: PhantomData };
    handle.finish(hp);
}

impl TakeOp {
    /// A request that has not begun.
    pub fn new() -> (r: Self)
        ensures
            r@ == TakeState::start(),
    {
        let r = TakeOp {
            at: TakeAt::Acquire,
            pop: PopOp::start(),
            local: 0,
            search: Reclaim::start(),
            found: Vec::new(),
        };
        assert(r@ =~= TakeState::start());
        r
    }

    /// Performs one step.
    pub fn step(&mut self, pool: &mut PoolWords)
        requires
            old(pool).hp.wf(),
            old(self)@.fits(old(pool)@),
        ensures
            final(pool).hp.wf(),
            (final(self)@, final(pool)@) == take_next(old(self)@, old(pool)@),
    {
        let ghost p = pool@;
        let ghost op = self@;
        match self.at {
            TakeAt::Acquire => {
                if self.local >= pool.hp.is_available.len() {
                    self.at = TakeAt::Refused;
                } else if enter(&mut pool.hp, self.local) {
                    self.at = TakeAt::Pop;
                } else {
                    self.local = self.local + 1;
                }
            },
            TakeAt::Pop => {
                self.pop.step(&mut pool.stack);
                self.at = match self.pop.at {
                    PopStep::Load => TakeAt::Withdraw,
                    PopStep::Check => TakeAt::Publish,
                    PopStep::Read | PopStep::Swap => TakeAt::Pop,
                    PopStep::Done => TakeAt::Count,
                    PopStep::Empty => TakeAt::Room,
                };
            },
            TakeAt::Publish => {
                publish(&mut pool.hp, self.local, stack::node(self.pop.seen));
                self.at = TakeAt::Pop;
            },
            TakeAt::Withdraw => {
                withdraw(&mut pool.hp, self.local, stack::node(self.pop.seen));
                self.at = TakeAt::Pop;
            },
            TakeAt::Count => {
                proof {
                    num::lemma_wrap(pool.in_list - 1);
                }
                pool.in_list = pool.in_list.wrapping_sub(1);
                self.at = TakeAt::Clear;
            },
            TakeAt::Clear => {
                withdraw(&mut pool.hp, self.local, stack::node(self.pop.seen));
                self.at = TakeAt::Leave;
            },
            TakeAt::Leave => {
                leave(&mut pool.hp, self.local);
                self.at = TakeAt::Ready { word: self.pop.seen };
            },
            TakeAt::Room => {
                if pool.allocated < pool.alloc_max {
                    self.at = TakeAt::LeaveToGrow;
                } else {
                    self.search = Reclaim::start();
                    self.at = TakeAt::Search;
                }
            },
            TakeAt::LeaveToGrow => {
                leave(&mut pool.hp, self.local);
                self.at = TakeAt::Grow;
            },
            TakeAt::Made { word } => {
                proof {
                    num::lemma_wrap(pool.allocated + 1);
                }
                pool.allocated = pool.allocated.wrapping_add(1);
                self.at = TakeAt::Ready { word };
            },
            TakeAt::Search => {
                self.search.step(&mut pool.hp);
                if self.search.at == ReclaimAt::Done {
                    self.found = in_order(&self.search.handed);
                    self.at = if self.found.len() == 0 {
                        TakeAt::LeaveEmpty
                    } else {
                        TakeAt::Settle
                    };
                }
            },
            TakeAt::Settle => {
                proof {
                    num::lemma_wrap(pool.retired - self.found@.len());
                }
                pool.retired = pool.retired.wrapping_sub(self.found.len());
                self.at = TakeAt::Recycle;
            },
            TakeAt::Recycle => {
                if self.found.len() == 0 {
                    self.pop = PopOp::start();
                    self.at = TakeAt::Pop;
                }
            },
            TakeAt::LeaveEmpty => {
                leave(&mut pool.hp, self.local);
                self.at = TakeAt::Refused;
            },
            TakeAt::Grow | TakeAt::Ready { .. } | TakeAt::Refused => {},
        }
        assert(self@ == take_next(op, p).0);
        assert(pool@ =~= take_next(op, p).1);
    }

    /// Takes in the memory that the request waits for. `node` is its address.
    pub fn made(&mut self, node: u64)
        requires
            old(self)@.at == TakeAt::Grow,
        ensures
            final(self)@ == (TakeState {
                at: TakeAt::Made { word: ptr::packed(node, 0) },
                ..old(self)@
            }),
    {
        let word: TaggedPtr<Node> = TaggedPtr::new(node, 0);
        self.at = TakeAt::Made { word: word.inner };
    }

    /// The next node to be put back of those that the request has found.
    pub fn put_back(&mut self) -> (r: Option<u64>)
        requires
            old(self)@.at == TakeAt::Recycle,
        ensures
            ({
                let found = old(self)@.found;
                if found.len() == 0 {
                    r is None && final(self)@ == old(self)@
                } else {
                    r == Some(found.first()) && final(self)@ == (TakeState {
                        found: found.drop_first(),
                        ..old(self)@
                    })
                }
            }),
    {
        if self.found.len() == 0 {
            return None;
        }
        let ghost found = self.found@;
        let r: u64 = self.found.remove(0);
        assert(self.found@ =~= found.drop_first());
        Some(r)
    }
}

/// What a return does next.
#[derive(Clone, Copy, Debug, PartialEq, Eq, Structural)]
pub enum GiveAt {
    /// Tries to take the next handle.
    Acquire,
    /// Reads how many nodes are in the list.
    Full,
    /// Goes on with its push.
    Push,
    /// Publishes the node at the head.
    Publish,
    /// Stops publishing the node, and starts over.
    Withdraw,
    /// Has pushed its node: counts one more in the list.
    Count,
    /// Stops publishing the node that was at the head.
    Clear,
    /// Gives the handle back, all of whose slots are empty.
    Leave,
    /// The list is full: publishes its own node.
    PublishOwn,
    /// Retires its node.
    Retire,
    /// Stops publishing its own node.
    ClearOwn,
    /// Gives the handle back.
    LeaveOwn,
    /// Counts one more that waits.
    CountRetired,
    /// Looks for nodes that can be released.
    Search,
    /// Counts so many less that wait.
    Settle,
    /// Counts so many buffers less.
    WriteOff,
    /// The memory of the nodes that it has found is given back.
    Free,
    /// Nothing: it is complete.
    Done,
    /// Nothing: there was no handle for it.
    Refused,
}

/// The state of a return.
pub struct GiveState {
    pub at: GiveAt,
    /// The node, as the packed word under which it goes on the stack.
    pub word: u64,
    pub push: PushOp,
    /// The handle that it has taken, or tries to take.
    pub local: int,
    pub search: ReclaimState,
    /// The nodes that it has found and still has to release, in ascending order.
    pub found: Seq<u64>,
}

impl GiveState {
    /// A return that has not begun.
    pub open spec fn start(word: u64) -> GiveState {
        GiveState {
            at: GiveAt::Acquire,
            word,
            push: PushOp { word, seen: 0, at: PushStep::Load },
            local: 0,
            search: ReclaimState::start(),
            found: Seq::empty(),
        }
    }

    /// Whether the return has a handle.
    pub open spec fn holds(self) -> bool {
        match self.at {
            GiveAt::Full | GiveAt::Push | GiveAt::Publish | GiveAt::Withdraw | GiveAt::Count
            | GiveAt::Clear | GiveAt::Leave | GiveAt::PublishOwn | GiveAt::Retire | GiveAt::ClearOwn
            | GiveAt::LeaveOwn => true,
            _ => false,
        }
    }

    /// What its slot publishes.
    pub open spec fn shows(self) -> u64 {
        match self.at {
            GiveAt::Push => if self.push.at != PushStep::Load {
                stack::node_of(self.push.seen)
            } else {
                0
            },
            GiveAt::Withdraw | GiveAt::Count | GiveAt::Clear => stack::node_of(self.push.seen),
            GiveAt::Retire | GiveAt::ClearOwn => stack::node_of(self.word),
            _ => 0,
        }
    }

    /// Whether the return can go on from here: its handle is its own, its slot
    /// publishes what it should, and its search makes sense.
    pub open spec fn fits(self, p: PoolState) -> bool {
        &&& self.holds() ==> handle_fits(self.local, self.shows(), p)
        &&& self.at == GiveAt::Search ==> search_fits(self.search, p)
    }
}

/// Where a return goes on after a step of its push.
pub open spec fn after_push(at: PushStep) -> GiveAt {
    match at {
        PushStep::Load => GiveAt::Withdraw,
        PushStep::Check => GiveAt::Publish,
        PushStep::Link | PushStep::Swap => GiveAt::Push,
        PushStep::Done => GiveAt::Count,
    }
}

/// One step of a return.
pub open spec fn give_next(op: GiveState, p: PoolState) -> (GiveState, PoolState) {
    match op.at {
        GiveAt::Acquire => if op.local >= p.hp.available.len() {
            (GiveState { at: GiveAt::Refused, ..op }, p)
        } else if p.hp.available[op.local] {
            (
                GiveState { at: GiveAt::Full, ..op },
                PoolState { hp: entered(p.hp, op.local), ..p },
            )
        } else {
            (GiveState { local: op.local + 1, ..op }, p)
        },
        GiveAt::Full => if p.in_list >= p.list_max {
            (GiveState { at: GiveAt::PublishOwn, ..op }, p)
        } else {
            (GiveState { at: GiveAt::Push, ..op }, p)
        },
        GiveAt::Push => {
            let (push, words) = stack::push_next(op.push, p.words);
            (GiveState { at: after_push(push.at), push, ..op }, PoolState { words, ..p })
        },
        GiveAt::Publish => (
            GiveState { at: GiveAt::Push, ..op },
            PoolState { hp: p.hp.with_slot(op.local, 0, stack::node_of(op.push.seen)), ..p },
        ),
        GiveAt::Withdraw => (
            GiveState { at: GiveAt::Push, ..op },
            PoolState { hp: p.hp.with_slot(op.local, 0, 0), ..p },
        ),
        GiveAt::Count => (
            GiveState { at: GiveAt::Clear, ..op },
            PoolState { in_list: num::wrap(p.in_list + 1), ..p },
        ),
        GiveAt::Clear => (
            GiveState { at: GiveAt::Leave, ..op },
            PoolState { hp: p.hp.with_slot(op.local, 0, 0), ..p },
        ),
        GiveAt::Leave => (
            GiveState { at: GiveAt::Done, ..op },
            PoolState { hp: p.hp.finished(op.local), ..p },
        ),
        GiveAt::PublishOwn => (
            GiveState { at: GiveAt::Retire, ..op },
            PoolState { hp: p.hp.with_slot(op.local, 0, stack::node_of(op.word)), ..p },
        ),
        GiveAt::Retire => (
            GiveState { at: GiveAt::ClearOwn, ..op },
            PoolState { hp: p.hp.with_retired(op.local, stack::node_of(op.word)), ..p },
        ),
        GiveAt::ClearOwn => (
            GiveState { at: GiveAt::LeaveOwn, ..op },
            PoolState { hp: p.hp.with_slot(op.local, 0, 0), ..p },
        ),
        GiveAt::LeaveOwn => (
            GiveState { at: GiveAt::CountRetired, ..op },
            PoolState { hp: p.hp.finished(op.local), ..p },
        ),
        GiveAt::CountRetired => {
            let retired = num::wrap(p.retired + 1);
            let at = if retired > p.retired_max {
                GiveAt::Search
            } else {
                GiveAt::Done
            };
            (GiveState { at, search: ReclaimState::start(), ..op }, PoolState { retired, ..p })
        },
        GiveAt::Search => {
            let (search, hp) = reclaim::reclaim_next(op.search, p.hp);
            let found = order::in_order(search.handed.to_set());
            let after = if search.at != ReclaimAt::Done {
                GiveState { search, ..op }
            } else {
                GiveState { at: GiveAt::Settle, search, found, ..op }
            };
            (after, PoolState { hp, ..p })
        },
        GiveAt::Settle => (
            GiveState { at: GiveAt::WriteOff, ..op },
            PoolState { retired: num::wrap(p.retired - op.found.len()), ..p },
        ),
        GiveAt::WriteOff => (
            GiveState { at: GiveAt::Free, ..op },
            PoolState { allocated: num::wrap(p.allocated - op.found.len()), ..p },
        ),
        GiveAt::Free => if op.found.len() > 0 {
            (op, p)
        } else {
            (GiveState { at: GiveAt::Done, ..op }, p)
        },
        GiveAt::Done | GiveAt::Refused => (op, p),
    }
}

/// A request is refused only where no handle is free, or where the pool has grown
/// as far as it may and a search has found nothing; it ends with the buffer that
/// it has popped or made.
pub proof fn request_is_refused_only_for_want(op: TakeState, p: PoolState)
    ensures
        ({
            let (after, q) = take_next(op, p);
            &&& after.at == TakeAt::Refused && op.at != TakeAt::Refused ==> op.at == TakeAt::Acquire
                && op.local >= p.hp.available.len() || op.at == TakeAt::LeaveEmpty
            &&& after.at == TakeAt::LeaveEmpty && op.at != TakeAt::LeaveEmpty ==> op.at
                == TakeAt::Search && after.search.at == ReclaimAt::Done && after.found.len() == 0
            &&& op.at == TakeAt::Acquire && 0 <= op.local < p.hp.available.len() ==> (after.at
                == TakeAt::Pop <==> p.hp.available[op.local]) && after.at != TakeAt::Refused
            &&& op.at == TakeAt::Acquire && after.at == TakeAt::Acquire ==> after.local == op.local
                + 1 && q == p
            &&& after.at matches TakeAt::Ready { word } ==> {
                ||| op.at == TakeAt::Leave && word == op.pop.seen
                ||| op.at == TakeAt::Made { word }
                ||| op.at == TakeAt::Ready { word }
            }
            &&& op.at == TakeAt::Pop && after.at == TakeAt::Room ==> stack::node_of(p.words.head)
                == 0 || op.pop.at == PopStep::Empty
        }),
{
}

/// Each counter of a pool changes in one step of a call only, and the limits
/// never: a request counts what it has popped, made or found, a return what it
/// has pushed, retired or found.
pub proof fn counters_follow_the_buffers(t: TakeState, g: GiveState, p: PoolState)
    ensures
        ({
            let q = take_next(t, p).1;
            &&& q.alloc_max == p.alloc_max && q.list_max == p.list_max && q.retired_max
                == p.retired_max
            &&& q.allocated != p.allocated ==> t.at is Made
            &&& q.in_list != p.in_list ==> t.at == TakeAt::Count
            &&& q.retired != p.retired ==> t.at == TakeAt::Settle
            &&& t.at is Made && p.allocated < usize::MAX ==> q.allocated == p.allocated + 1
            &&& t.at == TakeAt::Count && p.in_list > 0 ==> q.in_list == p.in_list - 1
            &&& t.at == TakeAt::Settle && t.found.len() <= p.retired ==> q.retired == p.retired
                - t.found.len()
        }),
        ({
            let q = give_next(g, p).1;
            &&& q.alloc_max == p.alloc_max && q.list_max == p.list_max && q.retired_max
                == p.retired_max
            &&& q.allocated != p.allocated ==> g.at == GiveAt::WriteOff
            &&& q.in_list != p.in_list ==> g.at == GiveAt::Count
            &&& q.retired != p.retired ==> g.at == GiveAt::CountRetired || g.at == GiveAt::Settle
            &&& g.at == GiveAt::Count && p.in_list < usize::MAX ==> q.in_list == p.in_list + 1
            &&& g.at == GiveAt::Settle && g.found.len() <= p.retired ==> q.retired == p.retired
                - g.found.len()
            &&& g.at == GiveAt::WriteOff && g.found.len() <= p.allocated ==> q.allocated
                == p.allocated - g.found.len()
        }),
{
    num::lemma_wrap(p.allocated + 1);
    num::lemma_wrap(p.in_list - 1);
    num::lemma_wrap(p.in_list + 1);
    num::lemma_wrap(p.retired - t.found.len());
    num::lemma_wrap(p.retired - g.found.len());
    num::lemma_wrap(p.allocated - g.found.len());
}

/// A return is refused only where no handle is free, and complete only once its
/// node is on the list or has been retired, everything found has been released,
/// and its handle has been given back.
pub proof fn return_is_refused_only_for_want(op: GiveState, p: PoolState)
    ensures
        ({
            let (after, q) = give_next(op, p);
            &&& after.word == op.word
            &&& after.at == GiveAt::Refused && op.at != GiveAt::Refused ==> op.at == GiveAt::Acquire
                && op.local >= p.hp.available.len()
            &&& op.at == GiveAt::Acquire && 0 <= op.local < p.hp.available.len() ==> (after.at
                == GiveAt::Full <==> p.hp.available[op.local]) && after.at != GiveAt::Refused
            &&& after.at == GiveAt::Done && op.at != GiveAt::Done ==> {
                ||| op.at == GiveAt::Leave && q.hp == p.hp.finished(op.local)
                ||| op.at == GiveAt::CountRetired
                ||| op.at == GiveAt::Free && op.found.len() == 0
            }
            &&& after.at == GiveAt::CountRetired ==> op.at == GiveAt::LeaveOwn && q.hp
                == p.hp.finished(op.local)
            &&& after.at == GiveAt::ClearOwn ==> op.at == GiveAt::Retire && q.hp == p.hp.with_retired(
                op.local,
                stack::node_of(op.word),
            )
        }),
{
}

/// The limits of a pool decide what calls do: a request that found the list empty
/// makes the pool grow exactly if it owns fewer buffers than it may; a return
/// puts its node on the list exactly if fewer are there than may be; and it
/// releases nodes exactly if more wait than may.
pub proof fn limits_decide(t: TakeState, g: GiveState, p: PoolState)
    ensures
        t.at == TakeAt::Room ==> {
            &&& take_next(t, p).0.at == TakeAt::LeaveToGrow <==> p.allocated < p.alloc_max
            &&& take_next(t, p).0.at == TakeAt::Search <==> p.allocated >= p.alloc_max
            &&& take_next(t, p).1 == p
        },
        g.at == GiveAt::Full ==> {
            &&& give_next(g, p).0.at == GiveAt::Push <==> p.in_list < p.list_max
            &&& give_next(g, p).0.at == GiveAt::PublishOwn <==> p.in_list >= p.list_max
            &&& give_next(g, p).1 == p
        },
        g.at == GiveAt::CountRetired && p.retired < usize::MAX ==> {
            &&& give_next(g, p).0.at == GiveAt::Search <==> p.retired + 1 > p.retired_max
            &&& give_next(g, p).0.at == GiveAt::Done <==> p.retired + 1 <= p.retired_max
            &&& give_next(g, p).1.retired == p.retired + 1
        },
{
    num::lemma_wrap(p.retired + 1);
}

/// A return in progress.
pub struct GiveOp {
    pub at: GiveAt,
    pub word: u64,
    pub push: PushOp,
    pub local: usize,
    pub search: Reclaim,
    pub found: Vec<u64>,
}

impl View for GiveOp {
    type V = GiveState;

    open spec fn view(&self) -> GiveState {
        GiveState {
            at: self.at,
            word: self.word,
            push: self.push,
            local: self.local as int,
            search: self.search@,
            found: self.found@,
        }
    }
}

impl GiveOp {
    /// A return that has not begun. `word` is the node with the tag that it gets.
    pub fn new(word: u64) -> (r: Self)
        ensures
            r@ == GiveState::start(word),
    {
        let r = GiveOp {
            at: GiveAt::Acquire,
            word,
            push: PushOp::start(word),
            local: 0,
            search: Reclaim::start(),
            found: Vec::new(),
        };
        assert(r@ =~= GiveState::start(word));
        r
    }

    /// Performs one step.
    pub fn step(&mut self, pool: &mut PoolWords)
        requires
            old(pool).hp.wf(),
            old(self)@.fits(old(pool)@),
        ensures
            final(pool).hp.wf(),
            (final(self)@, final(pool)@) == give_next(old(self)@, old(pool)@),
    {
        let ghost p = pool@;
        let ghost op = self@;
        match self.at {
            GiveAt::Acquire => {
                if self.local >= pool.hp.is_available.len() {
                    self.at = GiveAt::Refused;
                } else if enter(&mut pool.hp, self.local) {
                    self.at = GiveAt::Full;
                } else {
                    self.local = self.local + 1;
                }
            },
            GiveAt::Full => {
                self.at = if pool.in_list >= pool.list_max {
                    GiveAt::PublishOwn
                } else {
                    GiveAt::Push
                };
            },
            GiveAt::Push => {
                self.push.step(&mut pool.stack);
                self.at = match self.push.at {
                    PushStep::Load => GiveAt::Withdraw,
                    PushStep::Check => GiveAt::Publish,
                    PushStep::Link | PushStep::Swap => GiveAt::Push,
                    PushStep::Done => GiveAt::Count,
                };
            },
            GiveAt::Publish => {
                publish(&mut pool.hp, self.local, stack::node(self.push.seen));
                self.at = GiveAt::Push;
            },
            GiveAt::Withdraw => {
                withdraw(&mut pool.hp, self.local, stack::node(self.push.seen));
                self.at = GiveAt::Push;
            },
            GiveAt::Count => {
                proof {
                    num::lemma_wrap(pool.in_list + 1);
                }
                pool.in_list = pool.in_list.wrapping_add(1);
                self.at = GiveAt::Clear;
            },
            GiveAt::Clear => {
                withdraw(&mut pool.hp, self.local, stack::node(self.push.seen));
                self.at = GiveAt::Leave;
            },
            GiveAt::Leave => {
                leave(&mut pool.hp, self.local);
                self.at = GiveAt::Done;
            },
            GiveAt::PublishOwn => {
                publish(&mut pool.hp, self.local, stack::node(self.word));
                self.at = GiveAt::Retire;
            },
            GiveAt::Retire => {
                pool.hp.locals[self.local].push_retire_node(stack::node(self.word));
                proof {
                    let want = p.hp.with_retired(op.local, stack::node_of(op.word));
                    assert(pool.hp@.retired =~= want.retired);
                    assert(pool.hp@.slots =~= want.slots);
                }
                self.at = GiveAt::ClearOwn;
            },
            GiveAt::ClearOwn => {
                withdraw(&mut pool.hp, self.local, stack::node(self.word));
                self.at = GiveAt::LeaveOwn;
            },
            GiveAt::LeaveOwn => {
                leave(&mut pool.hp, self.local);
                self.at = GiveAt::CountRetired;
            },
            GiveAt::CountRetired => {
                proof {
                    num::lemma_wrap(pool.retired + 1);
                }
                pool.retired = pool.retired.wrapping_add(1);
                self.search = Reclaim::start();
                self.at = if pool.retired > pool.retired_max {
                    GiveAt::Search
                } else {
                    GiveAt::Done
                };
            },
            GiveAt::Search => {
                self.search.step(&mut pool.hp);
                if self.search.at == ReclaimAt::Done {
                    self.found = in_order(&self.search.handed);
                    self.at = GiveAt::Settle;
                }
            },
            GiveAt::Settle => {
                proof {
                    num::lemma_wrap(pool.retired - self.found@.len());
                }
                pool.retired = pool.retired.wrapping_sub(self.found.len());
                self.at = GiveAt::WriteOff;
            },
            GiveAt::WriteOff => {
                proof {
                    num::lemma_wrap(pool.allocated - self.found@.len());
                }
                pool.allocated = pool.allocated.wrapping_sub(self.found.len());
                self.at = GiveAt::Free;
            },
            GiveAt::Free => {
                if self.found.len() == 0 {
                    self.at = GiveAt::Done;
                }
            },
            GiveAt::Done | GiveAt::Refused => {},
        }
        assert(self@ == give_next(op, p).0);
        assert(pool@ =~= give_next(op, p).1);
    }

    /// The next node whose memory is to be given back, of those that the return
    /// has found. Nothing can be read from it any more.
    pub fn free(&mut self, pool: &mut PoolWords) -> (r: Option<u64>)
        requires
            old(self)@.at == GiveAt::Free,
        ensures
            final(pool).hp == old(pool).hp,
            ({
                let found = old(self)@.found;
                if found.len() == 0 {
                    r is None && final(self)@ == old(self)@ && final(pool)@ == old(pool)@
                } else {
                    &&& r == Some(found.first())
                    &&& final(self)@ == (GiveState { found: found.drop_first(), ..old(self)@ })
                    &&& final(pool)@ == (PoolState {
                        words: StackView {
                            links: old(pool)@.words.links.remove(found.first()),
                            ..old(pool)@.words
                        },
                        ..old(pool)@
                    })
                }
            }),
    {
        broadcast use group_hash_axioms;

        if self.found.len() == 0 {
            return None;
        }
        let ghost found = self.found@;
        let r: u64 = self.found.remove(0);
        assert(self.found@ =~= found.drop_first());
        pool.stack.links.remove(&r);
        Some(r)
    }
}

} // verus!

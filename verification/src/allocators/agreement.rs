//! What holds of the calls of any number of threads on one pool.
//!
//! Every step that a call can take keeps the trade of a [`Floor`] in agreement
//! with the pool and all its calls. So a buffer that a request returns with is
//! nobody else's, and the counters account for all buffers, however the calls
//! overlap.

use super::calls;
use super::calls::{GiveAt, PoolState, TakeAt};
use super::crowd;
use super::floor;
use super::floor::{Floor, Move, Spot};
use super::pool::Shape;
use super::stack;
use super::stack::{PopStep, PushStep};
use super::trade;
use super::trade::{Hand, Place};
use crate::order;
use crate::smr::hazard_ptrs::HazardView;
use crate::smr::reclaim;
use crate::smr::reclaim::ReclaimAt;
use vstd::prelude::*;

verus! {

/// Whether a node has been found by a call, and by which.
pub open spec fn finder(p: Place) -> Option<Hand> {
    match p {
        Place::Found(h) | Place::Settled(h) | Place::Off(h) => Some(h),
        _ => None,
    }
}

/// A step of one call leaves the others what they have: the handles that they
/// have, and the nodes that they have found or work on.
pub open spec fn spares(f: Floor, g: Floor, me: Hand) -> bool {
    &&& g.pool.hp.slots.len() == f.pool.hp.slots.len()
    &&& g.trade.threads == f.trade.threads
    &&& forall|w: int|
        me != Hand::Take(w) ==> {
            &&& #[trigger] g.takes.dom().contains(w) == f.takes.dom().contains(w)
            &&& g.takes[w] == f.takes[w]
        }
    &&& forall|w: int|
        me != Hand::Give(w) ==> {
            &&& #[trigger] g.gives.dom().contains(w) == f.gives.dom().contains(w)
            &&& g.gives[w] == f.gives[w]
        }
    &&& f.shows(me) != 0 ==> g.local(me) == f.local(me)
    &&& forall|l: int|
        0 <= l < f.pool.hp.slots.len() && #[trigger] f.owner.dom().contains(l) && f.owner[l] != me
            ==> {
            &&& g.owner.dom().contains(l)
            &&& g.owner[l] == f.owner[l]
            &&& g.pool.hp.slots[l] == f.pool.hp.slots[l]
            &&& g.pool.hp.available[l] == f.pool.hp.available[l]
        }
    &&& g.pool.hp.available.len() == f.pool.hp.available.len()
    &&& forall|n: u64| #[trigger]
        f.stored.dom().contains(n) && f.stored[n] is Taken && f.stored[n]->Taken_0 != me ==> {
            &&& g.stored.dom().contains(n)
            &&& g.stored[n] == f.stored[n]
            &&& f.trade.crowd.doomed[n].subset_of(g.trade.crowd.doomed[n])
        }
    &&& forall|n: u64| #[trigger]
        f.trade.place.dom().contains(n) ==> match finder(f.trade.place[n]) {
            Some(h) => h != me ==> g.trade.place.dom().contains(n) && g.trade.place[n]
                == f.trade.place[n],
            None => true,
        }
}

/// What a call is spared, it still has.
proof fn lemma_spared(f: Floor, g: Floor, me: Hand, h: Hand)
    requires
        f.agrees(),
        spares(f, g, me),
        h != me,
    ensures
        g.hand_ok(h),
        g.bag(h) == f.bag(h),
        g.bag_place(h) == f.bag_place(h),
        g.holds(h) == f.holds(h),
        g.local(h) == f.local(h),
{
    assert(f.hand_ok(h));
    assert(g.has(h) == f.has(h)) by {
        match h {
            Hand::Take(w) => {
                assert(g.takes.dom().contains(w) == f.takes.dom().contains(w));
            },
            Hand::Give(w) => {
                assert(g.gives.dom().contains(w) == f.gives.dom().contains(w));
            },
        }
    }
    assert(g.holds(h) == f.holds(h));
    assert(g.bag(h) == f.bag(h));
    if f.seeks(h) {
        let s = f.search(h);
        assert(g.search(h) == s);
        assert forall|i: int| 0 <= i < s.taken.len() implies g.stored.dom().contains(
            #[trigger] s.taken[i],
        ) && g.stored[s.taken[i]] == Spot::Taken(h) by {
            assert(f.stored.dom().contains(s.taken[i]));
        }
        if s.at == ReclaimAt::Look {
            let p = s.in_hand();
            assert(f.stored.dom().contains(s.taken[s.taken.len() - 1]));
            assert forall|w: int| #[trigger] g.trade.threads.contains(w)
                && !g.trade.crowd.doomed[p].contains(w) implies s.ahead(
                g.local(Hand::Take(w)),
                0,
            ) by {
                assert(f.trade.threads.contains(w));
                assert(!f.trade.crowd.doomed[p].contains(w));
                assert(f.trade.place.dom().contains(p));
                assert(f.trade.spot_ok(p));
                assert(f.watched(p, w));
                assert(f.take_ok(w));
                assert(f.shows(Hand::Take(w)) == p);
                if Hand::Take(w) != me {
                    assert(g.takes.dom().contains(w) == f.takes.dom().contains(w));
                }
            }
        }
    }
    assert forall|i: int| 0 <= i < f.bag(h).len() implies g.trade.place.dom().contains(
        #[trigger] f.bag(h)[i],
    ) && g.trade.place[f.bag(h)[i]] == g.bag_place(h) by {
        assert(f.trade.place.dom().contains(f.bag(h)[i]));
    }
}

/// Whether a handle is as the call `me` has left it, or as it was.
spec fn left_ok(f: Floor, g: Floor, me: Hand, l: int) -> bool {
    let hp = g.pool.hp;
    &&& hp.slots[l].len() >= 1
    &&& g.owner.dom().contains(l) ==> if g.owner[l] == me {
        !hp.available[l] && g.holds(me) && g.local(me) == l
    } else {
        f.owner.dom().contains(l) && f.owner[l] == g.owner[l]
    }
    &&& !g.owner.dom().contains(l) ==> hp.slots[l][0] == 0
    &&& g.kept_at(hp.retired[l], Spot::Retired(l))
}

/// Whether a node that is said to have been found is with the call `me`, or
/// with the call that it was with.
spec fn still_claimed(f: Floor, g: Floor, me: Hand, n: u64) -> bool {
    match finder(g.trade.place[n]) {
        Some(h) => if h == me {
            g.bag(me).contains(n) && g.trade.place[n] == g.bag_place(me)
        } else {
            f.trade.place.dom().contains(n) && f.trade.place[n] == g.trade.place[n]
        },
        None => true,
    }
}

/// Whether the trade says of the other calls what it said.
spec fn others_stay(f: Floor, g: Floor, me: Hand) -> bool {
    &&& forall|w: int|
        me != Hand::Take(w) ==> {
            &&& #[trigger] g.trade.takes.dom().contains(w) == f.trade.takes.dom().contains(w)
            &&& g.trade.takes[w] == f.trade.takes[w]
            &&& g.trade.crowd.hazards[w] == f.trade.crowd.hazards[w]
            &&& g.trade.crowd.pops[w] == f.trade.crowd.pops[w]
        }
    &&& forall|w: int|
        me != Hand::Give(w) ==> {
            &&& #[trigger] g.trade.gives.dom().contains(w) == f.trade.gives.dom().contains(w)
            &&& g.trade.gives[w] == f.trade.gives[w]
            &&& g.trade.crowd.pushes[w] == f.trade.crowd.pushes[w]
        }
    &&& me matches Hand::Take(w) ==> g.take_ok(w)
    &&& me matches Hand::Give(w) ==> g.give_ok(w)
}

/// A step of one call keeps trade and pool in agreement, if it does so for that
/// call and spares the others.
proof fn lemma_agrees(f: Floor, g: Floor, me: Hand)
    requires
        f.agrees(),
        g.trade.consistent(),
        g.same_words(),
        spares(f, g, me),
        others_stay(f, g, me),
        g.hand_ok(me),
        forall|l: int| 0 <= l < g.pool.hp.slots.len() ==> #[trigger] left_ok(f, g, me, l),
        forall|n: u64| #[trigger]
            g.stored.dom().contains(n) ==> g.trade.place.dom().contains(n) && g.trade.place[n]
                == Place::Waiting,
        forall|n: u64| #[trigger]
            g.trade.place.dom().contains(n) ==> still_claimed(f, g, me, n),
        forall|n: u64, w: int|
            g.trade.crowd.doomed.dom().contains(n) && g.trade.threads.contains(w)
                ==> #[trigger] g.watched(n, w),
    ensures
        g.agrees(),
{
    assert forall|l: int| 0 <= l < g.pool.hp.slots.len() implies #[trigger] g.handle_ok(l) by {
        assert(left_ok(f, g, me, l));
        assert(f.handle_ok(l));
        if g.owner.dom().contains(l) && g.owner[l] != me {
            lemma_spared(f, g, me, g.owner[l]);
            assert(f.owner.dom().contains(l));
        }
    }
    assert forall|h: Hand| #[trigger] g.hand_ok(h) by {
        if h != me {
            lemma_spared(f, g, me, h);
        }
    }
    assert forall|w: int| #[trigger] g.take_ok(w) by {
        if Hand::Take(w) != me {
            assert(f.take_ok(w));
            assert(g.takes.dom().contains(w) == f.takes.dom().contains(w));
            assert(g.trade.takes.dom().contains(w) == f.trade.takes.dom().contains(w));
        }
    }
    assert forall|w: int| #[trigger] g.give_ok(w) by {
        if Hand::Give(w) != me {
            assert(f.give_ok(w));
            assert(g.gives.dom().contains(w) == f.gives.dom().contains(w));
            assert(g.trade.gives.dom().contains(w) == f.trade.gives.dom().contains(w));
        }
    }
    assert forall|n: u64| g.trade.place.dom().contains(n) implies #[trigger] g.claimed(n) by {
        assert(still_claimed(f, g, me, n));
        if let Some(h) = finder(g.trade.place[n]) {
            if h != me {
                lemma_spared(f, g, me, h);
                assert(f.claimed(n));
            }
        }
    }
}

/// Whether a step has nothing to do with the registry.
spec fn plain(f: Floor, g: Floor, me: Hand) -> bool {
    &&& g.pool.hp == f.pool.hp
    &&& g.owner == f.owner
    &&& g.stored == f.stored
    &&& g.trade.threads == f.trade.threads
    &&& g.trade.crowd.doomed == f.trade.crowd.doomed
    &&& g.trade.crowd.hazards == f.trade.crowd.hazards
    &&& forall|n: u64| #[trigger]
        f.trade.place.dom().contains(n) && (finder(f.trade.place[n]) is Some || f.trade.place[n]
            == Place::Waiting) ==> g.trade.place.dom().contains(n) && g.trade.place[n]
            == f.trade.place[n]
    &&& forall|n: u64| #[trigger]
        g.trade.place.dom().contains(n) && finder(g.trade.place[n]) is Some
            ==> f.trade.place.dom().contains(n) && f.trade.place[n] == g.trade.place[n]
    &&& f.has(me)
    &&& g.has(me)
    &&& g.local(me) == f.local(me)
    &&& g.shows(me) == f.shows(me)
    &&& g.holds(me) == f.holds(me)
    &&& !g.seeks(me)
    &&& f.bag(me).len() == 0
    &&& g.bag(me).len() == 0
}

/// A step that has nothing to do with the registry keeps trade and pool in
/// agreement.
proof fn lemma_plain(f: Floor, g: Floor, me: Hand)
    requires
        f.agrees(),
        g.trade.consistent(),
        g.same_words(),
        plain(f, g, me),
        others_stay(f, g, me),
        forall|w: int|
            me != Hand::Take(w) ==> {
                &&& #[trigger] g.takes.dom().contains(w) == f.takes.dom().contains(w)
                &&& g.takes[w] == f.takes[w]
            },
        forall|w: int|
            me != Hand::Give(w) ==> {
                &&& #[trigger] g.gives.dom().contains(w) == f.gives.dom().contains(w)
                &&& g.gives[w] == f.gives[w]
            },
    ensures
        g.agrees(),
{
    assert(f.hand_ok(me));
    assert forall|l: int| 0 <= l < g.pool.hp.slots.len() implies #[trigger] left_ok(
        f,
        g,
        me,
        l,
    ) by {
        assert(f.handle_ok(l));
    }
    assert forall|n: u64| #[trigger] g.trade.place.dom().contains(n) implies still_claimed(
        f,
        g,
        me,
        n,
    ) by {
        if finder(g.trade.place[n]) is Some {
            assert(f.trade.place.dom().contains(n));
            assert(f.claimed(n));
        }
    }
    assert forall|n: u64, w: int|
        g.trade.crowd.doomed.dom().contains(n) && g.trade.threads.contains(
            w,
        ) implies #[trigger] g.watched(n, w) by {
        assert(f.watched(n, w));
    }
    lemma_agrees(f, g, me);
}

/// A request goes on with its pop.
proof fn lemma_take_pops(f: Floor, w: int)
    requires
        f.agrees(),
        f.takes.dom().contains(w),
        f.takes[w].at == TakeAt::Pop,
    ensures
        f.step_take(w).agrees(),
        f.step_take(w).trade.lent() == f.trade.lent(),
        f.takes[w].fits(f.pool),
{
    let g = f.step_take(w);
    let op = f.takes[w];
    let t = f.trade;
    assert(f.take_ok(w));
    assert(f.hand_ok(Hand::Take(w)));
    assert(t.thread_ok(w));
    assert(t.popping(w));
    trade::step_take_keeps_consistent(t, w);
    let after = stack::pop_next(op.pop, f.pool.words).0;
    if after.at == PopStep::Done {
        crowd::step_pop_keeps_consistent(t.crowd, w);
        let node = stack::node_of(op.pop.seen);
        assert(t.crowd.list[t.crowd.list.len() - 1] == op.pop.seen);
        assert(stack::stacked(t.crowd.list, node));
        assert(t.place.dom().contains(node));
        assert(t.spot_ok(node));
    }
    assert(g.take_ok(w));
    lemma_plain(f, g, Hand::Take(w));
}

/// A request that reads or changes a counter, or has got memory.
proof fn lemma_take_counts(f: Floor, w: int)
    requires
        f.agrees(),
        f.takes.dom().contains(w),
        match f.takes[w].at {
            TakeAt::Count | TakeAt::Made { .. } => true,
            TakeAt::Room => f.pool.allocated < f.pool.alloc_max,
            _ => false,
        },
    ensures
        f.step_take(w).agrees(),
        f.step_take(w).trade.lent() == f.trade.lent(),
{
    let g = f.step_take(w);
    let t = f.trade;
    assert(f.take_ok(w));
    assert(f.hand_ok(Hand::Take(w)));
    match f.takes[w].at {
        TakeAt::Count => {
            trade::count_popped_keeps_consistent(t, w);
        },
        TakeAt::Made { word } => {
            trade::count_made_keeps_consistent(t, w);
        },
        _ => {
            trade::read_allocated_keeps_consistent(t, w);
        },
    }
    assert(g.take_ok(w));
    lemma_plain(f, g, Hand::Take(w));
}

/// A request may get any memory that is part of no other buffer.
pub proof fn making_keeps_agreement(f: Floor, w: int, node: u64)
    requires
        f.agrees(),
        f.takes.dom().contains(w),
        f.takes[w].at == TakeAt::Grow,
        f.trade.shape.fits(node),
        forall|n: u64| #[trigger]
            f.trade.place.dom().contains(n) ==> f.trade.shape.apart(node, n),
    ensures
        f.made(w, node).agrees(),
        f.made(w, node).trade.lent() == f.trade.lent(),
{
    let g = f.made(w, node);
    assert(f.take_ok(w));
    assert(f.hand_ok(Hand::Take(w)));
    trade::make_keeps_consistent(f.trade, w, node);
    assert(g.take_ok(w));
    if f.trade.place.dom().contains(node) {
        assert(f.trade.shape.apart(node, node));
    }
    lemma_plain(f, g, Hand::Take(w));
}

/// A request takes the next handle, if it is free.
proof fn lemma_take_enters(f: Floor, w: int)
    requires
        f.agrees(),
        f.takes.dom().contains(w),
        f.takes[w].at == TakeAt::Acquire,
    ensures
        f.step_take(w).agrees(),
        f.step_take(w).trade.lent() == f.trade.lent(),
{
    let g = f.step_take(w);
    let t = f.trade;
    let me = Hand::Take(w);
    let l = f.takes[w].local;
    assert(f.take_ok(w));
    if l < f.pool.hp.available.len() && f.pool.hp.available[l] {
        trade::start_take_keeps_consistent(t, w);
        assert(g.take_ok(w));
        lemma_moved_in(f, g, me, l);
    } else {
        assert(g.take_ok(w));
        lemma_comes_or_goes(f, g, me);
    }
}

/// A call that takes a free handle spares the others.
proof fn lemma_moved_in(f: Floor, g: Floor, me: Hand, l: int)
    requires
        f.agrees(),
        g.trade.consistent(),
        g.same_words(),
        others_stay(f, g, me),
        0 <= l < f.pool.hp.available.len(),
        f.pool.hp.available[l],
        g.pool.hp == calls::entered(f.pool.hp, l),
        g.owner == f.owner.insert(l, me),
        g.stored == f.stored,
        !f.holds(me),
        f.shows(me) == 0,
        f.bag(me).len() == 0,
        g.holds(me),
        g.local(me) == l,
        g.shows(me) == 0,
        !g.seeks(me),
        g.bag(me).len() == 0,
        g.trade.threads == f.trade.threads,
        g.trade.crowd.doomed == f.trade.crowd.doomed,
        g.trade.crowd.hazards == f.trade.crowd.hazards,
        forall|n: u64| #[trigger]
            f.trade.place.dom().contains(n) && (finder(f.trade.place[n]) is Some
                || f.trade.place[n] == Place::Waiting) ==> g.trade.place.dom().contains(n)
                && g.trade.place[n] == f.trade.place[n],
        forall|n: u64| #[trigger]
            g.trade.place.dom().contains(n) && finder(g.trade.place[n]) is Some
                ==> f.trade.place.dom().contains(n) && f.trade.place[n] == g.trade.place[n],
        forall|v: int|
            me != Hand::Take(v) ==> {
                &&& #[trigger] g.takes.dom().contains(v) == f.takes.dom().contains(v)
                &&& g.takes[v] == f.takes[v]
            },
        forall|v: int|
            me != Hand::Give(v) ==> {
                &&& #[trigger] g.gives.dom().contains(v) == f.gives.dom().contains(v)
                &&& g.gives[v] == f.gives[v]
            },
    ensures
        g.agrees(),
{
    assert(f.hand_ok(me));
    assert(f.handle_ok(l));
    assert(!f.owner.dom().contains(l));
    assert forall|k: int| 0 <= k < g.pool.hp.slots.len() implies #[trigger] left_ok(
        f,
        g,
        me,
        k,
    ) by {
        assert(f.handle_ok(k));
    }
    assert forall|n: u64| #[trigger] g.trade.place.dom().contains(n) implies still_claimed(
        f,
        g,
        me,
        n,
    ) by {
        if finder(g.trade.place[n]) is Some {
            assert(f.trade.place.dom().contains(n));
            assert(f.claimed(n));
        }
    }
    assert forall|n: u64, v: int|
        g.trade.crowd.doomed.dom().contains(n) && g.trade.threads.contains(
            v,
        ) implies #[trigger] g.watched(n, v) by {
        assert(f.watched(n, v));
    }
    assert forall|k: int|
        0 <= k < f.pool.hp.slots.len() && #[trigger] f.owner.dom().contains(k) && f.owner[k]
            != me implies {
        &&& g.owner.dom().contains(k)
        &&& g.owner[k] == f.owner[k]
        &&& g.pool.hp.slots[k] == f.pool.hp.slots[k]
        &&& g.pool.hp.available[k] == f.pool.hp.available[k]
    } by {
        assert(k != l);
    }
    lemma_agrees(f, g, me);
}

/// Whether a step changes nothing but what one slot publishes, or gives one
/// handle back.
spec fn only_slot(f: Floor, g: Floor, me: Hand) -> bool {
    let (a, b) = (f.pool.hp, g.pool.hp);
    let l = f.local(me);
    &&& f.holds(me)
    &&& g.has(me)
    &&& g.local(me) == l
    &&& b.retired == a.retired
    &&& b.slots.len() == a.slots.len()
    &&& b.available.len() == a.available.len()
    &&& forall|k: int|
        0 <= k < a.slots.len() && k != l ==> #[trigger] b.slots[k] == a.slots[k] && b.available[k]
            == a.available[k]
    &&& b.slots[l].len() == a.slots[l].len()
    &&& b.slots[l][0] == g.shows(me)
    &&& if g.holds(me) {
        g.owner == f.owner && !b.available[l]
    } else {
        g.owner == f.owner.remove(l) && g.shows(me) == 0
    }
    &&& g.stored == f.stored
    &&& !g.seeks(me)
    &&& f.bag(me).len() == 0
    &&& g.bag(me).len() == 0
    &&& g.trade.threads == f.trade.threads
    &&& g.trade.place == f.trade.place
    &&& g.trade.crowd.doomed.dom() == f.trade.crowd.doomed.dom()
    &&& forall|n: u64| #[trigger]
        f.trade.crowd.doomed.dom().contains(n) ==> f.trade.crowd.doomed[n].subset_of(
            g.trade.crowd.doomed[n],
        )
    &&& forall|v: int|
        me != Hand::Take(v) ==> {
            &&& #[trigger] g.takes.dom().contains(v) == f.takes.dom().contains(v)
            &&& g.takes[v] == f.takes[v]
        }
    &&& forall|v: int|
        me != Hand::Give(v) ==> {
            &&& #[trigger] g.gives.dom().contains(v) == f.gives.dom().contains(v)
            &&& g.gives[v] == f.gives[v]
        }
}

/// A step that changes nothing but what one slot publishes, or gives one handle
/// back, keeps trade and pool in agreement.
proof fn lemma_only_slot(f: Floor, g: Floor, me: Hand)
    requires
        f.agrees(),
        g.trade.consistent(),
        g.same_words(),
        others_stay(f, g, me),
        only_slot(f, g, me),
        forall|n: u64, w: int|
            g.trade.crowd.doomed.dom().contains(n) && g.trade.threads.contains(w)
                ==> #[trigger] g.watched(n, w),
    ensures
        g.agrees(),
{
    assert(f.hand_ok(me));
    assert(f.handle_ok(f.local(me)));
    assert forall|k: int| 0 <= k < g.pool.hp.slots.len() implies #[trigger] left_ok(
        f,
        g,
        me,
        k,
    ) by {
        assert(f.handle_ok(k));
        if k != f.local(me) {
            assert(g.pool.hp.slots[k] == f.pool.hp.slots[k]);
        }
    }
    assert forall|n: u64| #[trigger] g.trade.place.dom().contains(n) implies still_claimed(
        f,
        g,
        me,
        n,
    ) by {
        assert(f.claimed(n));
    }
    assert forall|l: int|
        0 <= l < f.pool.hp.slots.len() && #[trigger] f.owner.dom().contains(l) && f.owner[l]
            != me implies {
        &&& g.owner.dom().contains(l)
        &&& g.owner[l] == f.owner[l]
        &&& g.pool.hp.slots[l] == f.pool.hp.slots[l]
        &&& g.pool.hp.available[l] == f.pool.hp.available[l]
    } by {
        assert(g.pool.hp.slots[l] == f.pool.hp.slots[l]);
    }
    assert forall|n: u64| #[trigger] f.stored.dom().contains(
        n,
    ) implies f.trade.crowd.doomed.dom().contains(n) by {
        assert(f.trade.place.dom().contains(n));
        assert(f.trade.spot_ok(n));
    }
    lemma_agrees(f, g, me);
}

/// A request publishes a node.
proof fn lemma_take_publishes(f: Floor, w: int)
    requires
        f.agrees(),
        f.takes.dom().contains(w),
        f.takes[w].at == TakeAt::Publish,
    ensures
        f.step_take(w).agrees(),
        f.step_take(w).trade.lent() == f.trade.lent(),
{
    let g = f.step_take(w);
    let t = f.trade;
    let me = Hand::Take(w);
    assert(f.take_ok(w));
    assert(f.hand_ok(me));
    assert(t.thread_ok(w));
    trade::publish_keeps_consistent(t, w, stack::node_of(f.takes[w].pop.seen));
    assert(g.trade.crowd.hazards.dom() =~= t.crowd.hazards.dom());
    assert(g.take_ok(w));
    assert forall|n: u64, v: int|
        g.trade.crowd.doomed.dom().contains(n) && g.trade.threads.contains(
            v,
        ) implies #[trigger] g.watched(n, v) by {
        assert(f.watched(n, v));
        assert(t.crowd.doomed_ok(n));
    }
    lemma_only_slot(f, g, me);
}

/// A request stops publishing a node.
proof fn lemma_take_clears(f: Floor, w: int)
    requires
        f.agrees(),
        f.takes.dom().contains(w),
        f.takes[w].at == TakeAt::Withdraw || f.takes[w].at == TakeAt::Clear,
    ensures
        f.step_take(w).agrees(),
        f.step_take(w).trade.lent() == f.trade.lent(),
{
    let g = f.step_take(w);
    let t = f.trade;
    let me = Hand::Take(w);
    assert(f.take_ok(w));
    assert(f.hand_ok(me));
    assert(t.thread_ok(w));
    trade::publish_keeps_consistent(t, w, 0);
    let u = t.publish(w, 0);
    trade::survey_keeps_consistent(u);
    assert(g.trade.crowd.hazards.dom() =~= t.crowd.hazards.dom());
    assert(g.trade.crowd.doomed.dom() =~= t.crowd.doomed.dom());
    assert(g.take_ok(w));
    assert forall|n: u64, v: int|
        g.trade.crowd.doomed.dom().contains(n) && g.trade.threads.contains(
            v,
        ) implies #[trigger] g.watched(n, v) by {
        if u.crowd.hazards[v] != n {
            assert(u.crowd.clear_of(n).contains(v));
        }
    }
    lemma_only_slot(f, g, me);
}

/// A request gives its handle back.
proof fn lemma_take_leaves(f: Floor, w: int)
    requires
        f.agrees(),
        f.takes.dom().contains(w),
        match f.takes[w].at {
            TakeAt::Leave | TakeAt::LeaveToGrow | TakeAt::LeaveEmpty => true,
            _ => false,
        },
    ensures
        f.step_take(w).agrees(),
        f.step_take(w).trade.lent() == f.trade.lent(),
{
    let g = f.step_take(w);
    let me = Hand::Take(w);
    assert(f.take_ok(w));
    assert(f.hand_ok(me));
    assert(g.take_ok(w));
    assert forall|n: u64, v: int|
        g.trade.crowd.doomed.dom().contains(n) && g.trade.threads.contains(
            v,
        ) implies #[trigger] g.watched(n, v) by {
        assert(f.watched(n, v));
    }
    lemma_only_slot(f, g, me);
}

/// Whether a step is one of a search that goes on.
spec fn seeking(f: Floor, g: Floor, h: Hand) -> bool {
    let (s, hp) = reclaim::reclaim_next(f.search(h), f.pool.hp);
    &&& f.seeks(h)
    &&& g.seeks(h)
    &&& g.search(h) == s
    &&& s.at != ReclaimAt::Done
    &&& g.pool == (PoolState { hp, ..f.pool })
    &&& g.owner == f.owner
    &&& g.stored == f.sought(h).stored
    &&& g.trade == f.sought(h).trade
    &&& g.holds(h) == f.holds(h)
    &&& g.local(h) == f.local(h)
    &&& f.shows(h) == 0
    &&& g.shows(h) == 0
    &&& f.bag(h) == f.search(h).handed
    &&& g.bag(h) == s.handed
    &&& f.bag_place(h) == Place::Found(h)
    &&& g.bag_place(h) == Place::Found(h)
    &&& forall|v: int|
        h != Hand::Take(v) ==> {
            &&& #[trigger] g.takes.dom().contains(v) == f.takes.dom().contains(v)
            &&& g.takes[v] == f.takes[v]
        }
    &&& forall|v: int|
        h != Hand::Give(v) ==> {
            &&& #[trigger] g.gives.dom().contains(v) == f.gives.dom().contains(v)
            &&& g.gives[v] == f.gives[v]
        }
}

/// Facts about the node that a search has in hand.
proof fn lemma_in_hand(f: Floor, h: Hand)
    requires
        f.agrees(),
        f.seeks(h),
        f.search(h).busy(),
    ensures
        ({
            let s = f.search(h);
            let p = s.in_hand();
            &&& p == s.taken[s.taken.len() - 1]
            &&& f.stored.dom().contains(p)
            &&& f.stored[p] == Spot::Taken(h)
            &&& p != 0
            &&& f.trade.place.dom().contains(p)
            &&& f.trade.place[p] == Place::Waiting
            &&& f.trade.crowd.doomed.dom().contains(p)
            &&& !s.taken.drop_last().contains(p)
        }),
{
    assert(f.hand_ok(h));
    let s = f.search(h);
    let p = s.in_hand();
    assert(p == s.taken[s.taken.len() - 1]);
    assert(f.stored.dom().contains(s.taken[s.taken.len() - 1]));
    assert(f.trade.spot_ok(p));
    assert(f.trade.crowd.doomed_ok(p));
    if s.taken.drop_last().contains(p) {
        let i = choose|i: int| 0 <= i < s.taken.drop_last().len() && s.taken.drop_last()[i] == p;
        assert(s.taken[i] == p);
    }
}

/// A thread that has not been looked at for a node has it published, through a
/// handle.
proof fn lemma_not_looked_at(f: Floor, n: u64, w: int)
    requires
        f.agrees(),
        f.trade.crowd.doomed.dom().contains(n),
        f.trade.threads.contains(w),
        !f.trade.crowd.doomed[n].contains(w),
    ensures
        f.holds(Hand::Take(w)),
        0 <= f.local(Hand::Take(w)) < f.pool.hp.slots.len(),
        f.pool.hp.slots[f.local(Hand::Take(w))].len() >= 1,
        f.pool.hp.slots[f.local(Hand::Take(w))][0] == n,
{
    assert(f.watched(n, w));
    assert(f.take_ok(w));
    assert(f.trade.crowd.doomed_ok(n));
    assert(f.hand_ok(Hand::Take(w)));
}

/// A search that has gone past all handles has found its node.
proof fn lemma_found(f: Floor, h: Hand)
    requires
        f.agrees(),
        f.seeks(h),
        f.search(h).at == ReclaimAt::Look,
        f.search(h).scan_local >= f.pool.hp.slots.len(),
        f.trade.may_find(h),
    ensures
        f.trade.find(h, f.search(h).in_hand()).consistent(),
{
    let s = f.search(h);
    let p = s.in_hand();
    assert(f.hand_ok(h));
    lemma_in_hand(f, h);
    assert forall|w: int| #[trigger] f.trade.crowd.hazards.dom().contains(
        w,
    ) implies f.trade.crowd.doomed[p].contains(w) by {
        assert(f.trade.threads.contains(w));
        if !f.trade.crowd.doomed[p].contains(w) {
            lemma_not_looked_at(f, p, w);
        }
    }
    trade::find_keeps_consistent(f.trade, h, p);
}

/// The handles after a step of a search.
proof fn lemma_search_handles(f: Floor, g: Floor, h: Hand)
    requires
        f.agrees(),
        seeking(f, g, h),
    ensures
        forall|l: int| 0 <= l < g.pool.hp.slots.len() ==> #[trigger] left_ok(f, g, h, l),
{
    let s = f.search(h);
    let p = s.in_hand();
    assert(f.hand_ok(h));
    if s.busy() {
        lemma_in_hand(f, h);
    }
    assert forall|l: int| 0 <= l < g.pool.hp.slots.len() implies #[trigger] left_ok(
        f,
        g,
        h,
        l,
    ) by {
        assert(f.handle_ok(l));
        let (a, b) = (f.pool.hp.retired[l], g.pool.hp.retired[l]);
        if s.at == ReclaimAt::Back && l == s.local {
            if a.contains(p) {
                let i = choose|i: int| 0 <= i < a.len() && a[i] == p;
                assert(f.stored[a[i]] == Spot::Retired(l));
            }
            assert forall|i: int| 0 <= i < b.len() implies g.stored.dom().contains(
                #[trigger] b[i],
            ) && g.stored[b[i]] == Spot::Retired(l) by {
                if i < a.len() {
                    assert(b[i] == a[i]);
                    assert(f.stored.dom().contains(a[i]));
                }
            }
            assert(b.no_duplicates()) by {
                assert forall|i: int, j: int| 0 <= i < j < b.len() implies b[i] != b[j] by {
                    assert(b[i] == a[i]);
                    if j < a.len() {
                        assert(b[j] == a[j]);
                    } else {
                        assert(a.contains(a[i]));
                    }
                }
            }
        } else {
            assert forall|i: int| 0 <= i < b.len() implies g.stored.dom().contains(
                #[trigger] b[i],
            ) && g.stored[b[i]] == Spot::Retired(l) by {
                assert(b[i] == a[i]);
                assert(f.stored.dom().contains(a[i]));
                if s.at == ReclaimAt::Take {
                    let list = f.pool.hp.retired[s.local];
                    if list.contains(a[i]) {
                        let j = choose|j: int| 0 <= j < list.len() && list[j] == a[i];
                        assert(f.handle_ok(s.local));
                        assert(f.stored[list[j]] == Spot::Retired(s.local));
                    }
                }
            }
        }
    }
}

/// What a search has after one of its steps.
proof fn lemma_search_hand(f: Floor, g: Floor, h: Hand)
    requires
        f.agrees(),
        seeking(f, g, h),
    ensures
        g.hand_ok(h),
{
    let s = f.search(h);
    let p = s.in_hand();
    let t = g.search(h);
    assert(f.hand_ok(h));
    if s.busy() {
        lemma_in_hand(f, h);
    }
    if s.at == ReclaimAt::Take {
        assert(f.handle_ok(s.local));
    }
    assert(g.kept_at(t.taken, Spot::Taken(h))) by {
        assert forall|i: int| 0 <= i < t.taken.len() implies g.stored.dom().contains(
            #[trigger] t.taken[i],
        ) && g.stored[t.taken[i]] == Spot::Taken(h) by {
            if s.at == ReclaimAt::Take {
                let list = f.pool.hp.retired[s.local];
                assert(list.contains(list[i]));
            } else {
                assert(t.taken[i] == s.taken[i]);
                assert(f.stored.dom().contains(s.taken[i]));
                if t.taken.len() < s.taken.len() {
                    assert(s.taken.drop_last()[i] == s.taken[i]);
                    assert(s.taken.drop_last().contains(s.taken[i]));
                }
            }
        }
    }
    if t.at == ReclaimAt::Look {
        let q = t.in_hand();
        assert(q == t.taken[t.taken.len() - 1]);
        assert(g.stored.dom().contains(q));
        assert(f.stored.dom().contains(q)) by {
            if s.at == ReclaimAt::Take {
                assert(f.stored.dom().contains(f.pool.hp.retired[s.local][t.taken.len() - 1]));
            }
        }
        assert(f.trade.place.dom().contains(q));
        assert(f.trade.spot_ok(q));
        assert forall|w: int| #[trigger] g.trade.threads.contains(w)
            && !g.trade.crowd.doomed[q].contains(w) implies t.ahead(
            g.local(Hand::Take(w)),
            0,
        ) by {
            lemma_not_looked_at(f, q, w);
            assert(f.trade.threads.contains(w));
            assert(Hand::Take(w) != h ==> g.takes[w] == f.takes[w]) by {
                if Hand::Take(w) != h {
                    assert(g.takes.dom().contains(w) == f.takes.dom().contains(w));
                }
            }
        }
    }
    let (a, b) = (f.bag(h), g.bag(h));
    let finds = s.at == ReclaimAt::Look && s.scan_local >= f.pool.hp.slots.len();
    assert forall|i: int| 0 <= i < b.len() implies g.trade.place.dom().contains(#[trigger] b[i])
        && g.trade.place[b[i]] == Place::Found(h) by {
        if i < a.len() {
            assert(b[i] == a[i]);
            assert(f.trade.place.dom().contains(a[i]));
        }
    }
    assert(b.no_duplicates()) by {
        assert forall|i: int, j: int| 0 <= i < j < b.len() implies b[i] != b[j] by {
            assert(b[i] == a[i]);
            assert(f.trade.place[a[i]] == Place::Found(h));
            if j < a.len() {
                assert(b[j] == a[j]);
            }
        }
    }
}

/// A step of a search that goes on keeps trade and pool in agreement.
proof fn lemma_search_goes_on(f: Floor, g: Floor, h: Hand)
    requires
        f.agrees(),
        seeking(f, g, h),
        f.trade.may_find(h),
        h matches Hand::Take(w) ==> g.take_ok(w),
        h matches Hand::Give(w) ==> g.give_ok(w),
    ensures
        g.agrees(),
{
    let s = f.search(h);
    let p = s.in_hand();
    let finds = s.at == ReclaimAt::Look && s.scan_local >= f.pool.hp.slots.len();
    assert(f.hand_ok(h));
    if s.busy() {
        lemma_in_hand(f, h);
    }
    if finds {
        lemma_found(f, h);
    }
    lemma_search_handles(f, g, h);
    lemma_search_hand(f, g, h);
    assert forall|n: u64| #[trigger] g.trade.place.dom().contains(n) implies still_claimed(
        f,
        g,
        h,
        n,
    ) by {
        if finds && n == p {
            assert(g.bag(h)[f.bag(h).len() as int] == p);
        } else {
            assert(f.claimed(n));
            if finder(f.trade.place[n]) == Some(h) {
                let i = choose|i: int| 0 <= i < f.bag(h).len() && f.bag(h)[i] == n;
                assert(g.bag(h)[i] == n);
            }
        }
    }
    assert forall|n: u64, v: int|
        g.trade.crowd.doomed.dom().contains(n) && g.trade.threads.contains(
            v,
        ) implies #[trigger] g.watched(n, v) by {
        assert(f.watched(n, v));
    }
    assert forall|n: u64| #[trigger] g.stored.dom().contains(n) implies g.trade.place.dom().contains(
        n,
    ) && g.trade.place[n] == Place::Waiting by {
        if s.at == ReclaimAt::Take && f.pool.hp.retired[s.local].contains(n) {
            let list = f.pool.hp.retired[s.local];
            let i = choose|i: int| 0 <= i < list.len() && list[i] == n;
            assert(f.handle_ok(s.local));
            assert(f.stored.dom().contains(list[i]));
        }
        assert(f.stored.dom().contains(n));
    }
    assert forall|n: u64| #[trigger] f.stored.dom().contains(n) && f.stored[n] is Taken
        && f.stored[n]->Taken_0 != h implies {
        &&& g.stored.dom().contains(n)
        &&& g.stored[n] == f.stored[n]
        &&& f.trade.crowd.doomed[n].subset_of(g.trade.crowd.doomed[n])
    } by {
        if s.at == ReclaimAt::Take && f.pool.hp.retired[s.local].contains(n) {
            let list = f.pool.hp.retired[s.local];
            let i = choose|i: int| 0 <= i < list.len() && list[i] == n;
            assert(f.handle_ok(s.local));
            assert(f.stored[list[i]] == Spot::Retired(s.local));
        }
    }
    lemma_agrees(f, g, h);
}

/// Whether a step leaves the registry alone, and changes at most what one call
/// has found.
spec fn own_bag(f: Floor, g: Floor, me: Hand) -> bool {
    &&& g.pool.hp == f.pool.hp
    &&& g.owner == f.owner
    &&& g.stored == f.stored
    &&& g.trade.threads == f.trade.threads
    &&& g.trade.crowd.doomed == f.trade.crowd.doomed
    &&& g.trade.crowd.hazards == f.trade.crowd.hazards
    &&& forall|n: u64| #[trigger]
        f.trade.place.dom().contains(n) && finder(f.trade.place[n]) != Some(me)
            ==> g.trade.place.dom().contains(n) && g.trade.place[n] == f.trade.place[n]
    &&& forall|n: u64| #[trigger]
        g.trade.place.dom().contains(n) ==> match finder(g.trade.place[n]) {
            Some(h) => if h == me {
                g.bag(me).contains(n) && g.trade.place[n] == g.bag_place(me)
            } else {
                f.trade.place.dom().contains(n) && f.trade.place[n] == g.trade.place[n]
            },
            None => true,
        }
    &&& f.has(me)
    &&& g.has(me)
    &&& g.local(me) == f.local(me)
    &&& g.shows(me) == f.shows(me)
    &&& g.holds(me) == f.holds(me)
    &&& g.seeks(me) ==> g.search_ok(me)
    &&& g.bag_ok(me)
    &&& forall|v: int|
        me != Hand::Take(v) ==> {
            &&& #[trigger] g.takes.dom().contains(v) == f.takes.dom().contains(v)
            &&& g.takes[v] == f.takes[v]
        }
    &&& forall|v: int|
        me != Hand::Give(v) ==> {
            &&& #[trigger] g.gives.dom().contains(v) == f.gives.dom().contains(v)
            &&& g.gives[v] == f.gives[v]
        }
}

/// A step that leaves the registry alone keeps trade and pool in agreement.
proof fn lemma_own_bag(f: Floor, g: Floor, me: Hand)
    requires
        f.agrees(),
        g.trade.consistent(),
        g.same_words(),
        own_bag(f, g, me),
        others_stay(f, g, me),
    ensures
        g.agrees(),
{
    assert(f.hand_ok(me));
    assert forall|l: int| 0 <= l < g.pool.hp.slots.len() implies #[trigger] left_ok(
        f,
        g,
        me,
        l,
    ) by {
        assert(f.handle_ok(l));
    }
    assert forall|n: u64, w: int|
        g.trade.crowd.doomed.dom().contains(n) && g.trade.threads.contains(
            w,
        ) implies #[trigger] g.watched(n, w) by {
        assert(f.watched(n, w));
    }
    lemma_agrees(f, g, me);
}

/// What is in a list after its repeats are gone and it is in order.
proof fn lemma_sorted_bag(handed: Seq<u64>)
    requires
        handed.no_duplicates(),
    ensures
        order::in_order(handed.to_set()).no_duplicates(),
        order::in_order(handed.to_set()).len() == handed.len(),
        forall|n: u64| order::in_order(handed.to_set()).contains(n) <==> handed.contains(n),
{
    handed.unique_seq_to_set();
    vstd::seq_lib::seq_to_set_is_finite(handed);
    order::lemma_set_in_order(handed.to_set());
    let sorted = order::in_order(handed.to_set());
    assert forall|n: u64| sorted.contains(n) <==> handed.contains(n) by {
        assert(sorted.to_set().contains(n) <==> sorted.contains(n));
        assert(handed.to_set().contains(n) <==> handed.contains(n));
    }
}

/// The nodes in a bag are as many as the trade says.
proof fn lemma_bag_counts(f: Floor, h: Hand)
    requires
        f.agrees(),
        f.has(h),
    ensures
        f.trade.place.dom().filter(|n: u64| f.trade.place[n] == f.bag_place(h)) == f.bag(
            h,
        ).to_set(),
        f.bag(h).to_set().len() == f.bag(h).len(),
{
    let bag = f.bag(h);
    let there = f.trade.place.dom().filter(|n: u64| f.trade.place[n] == f.bag_place(h));
    assert(f.hand_ok(h));
    assert forall|n: u64| there.contains(n) <==> bag.to_set().contains(n) by {
        if there.contains(n) {
            assert(f.claimed(n));
        }
        if bag.contains(n) {
            let i = choose|i: int| 0 <= i < bag.len() && bag[i] == n;
            assert(f.trade.place.dom().contains(bag[i]));
        }
    }
    assert(there =~= bag.to_set());
    bag.unique_seq_to_set();
}

/// A request that may not make the pool grow begins its search.
proof fn lemma_take_begins_search(f: Floor, w: int)
    requires
        f.agrees(),
        f.takes.dom().contains(w),
        f.takes[w].at == TakeAt::Room,
        f.pool.allocated >= f.pool.alloc_max,
    ensures
        f.step_take(w).agrees(),
        f.step_take(w).trade.lent() == f.trade.lent(),
{
    let g = f.step_take(w);
    let me = Hand::Take(w);
    assert(f.take_ok(w));
    assert(f.hand_ok(me));
    trade::read_allocated_keeps_consistent(f.trade, w);
    assert(g.take_ok(w));
    assert forall|n: u64| #[trigger] g.trade.place.dom().contains(n) implies match finder(
        g.trade.place[n],
    ) {
        Some(h) => h != me,
        None => true,
    } by {
        assert(f.claimed(n));
    }
    lemma_own_bag(f, g, me);
}

/// A request goes on with its search, or is through with it.
proof fn lemma_take_searches(f: Floor, w: int)
    requires
        f.agrees(),
        f.takes.dom().contains(w),
        f.takes[w].at == TakeAt::Search,
    ensures
        f.step_take(w).agrees(),
        f.step_take(w).trade.lent() == f.trade.lent(),
{
    let g = f.step_take(w);
    let me = Hand::Take(w);
    let s = f.takes[w].search;
    assert(f.take_ok(w));
    assert(f.hand_ok(me));
    if s.busy() {
        lemma_in_hand(f, me);
    }
    let after = reclaim::reclaim_next(s, f.pool.hp).0;
    if after.at != ReclaimAt::Done {
        assert(g.take_ok(w));
        lemma_search_goes_on(f, g, me);
    } else {
        lemma_sorted_bag(s.handed);
        lemma_bag_counts(f, me);
        let found = order::in_order(s.handed.to_set());
        assert forall|i: int| 0 <= i < found.len() implies f.trade.place.dom().contains(
            #[trigger] found[i],
        ) && f.trade.place[found[i]] == Place::Found(me) by {
            assert(found.contains(found[i]));
            assert(s.handed.to_set().contains(found[i]));
        }
        if found.len() == 0 {
            assert(f.trade.found(me) =~= Set::<u64>::empty()) by {
                assert(s.handed.to_set() =~= Set::<u64>::empty());
            }
            trade::give_up_keeps_consistent(f.trade, w);
        }
        assert(g.take_ok(w));
        assert forall|n: u64| #[trigger] g.trade.place.dom().contains(n) implies match finder(
            g.trade.place[n],
        ) {
            Some(h) => h == me ==> g.bag(me).contains(n) && g.trade.place[n] == g.bag_place(me),
            None => true,
        } by {
            assert(f.claimed(n));
        }
        lemma_own_bag(f, g, me);
    }
}

/// A request counts what it has found.
proof fn lemma_take_settles(f: Floor, w: int)
    requires
        f.agrees(),
        f.takes.dom().contains(w),
        f.takes[w].at == TakeAt::Settle,
    ensures
        f.step_take(w).agrees(),
        f.step_take(w).trade.lent() == f.trade.lent(),
{
    let g = f.step_take(w);
    let me = Hand::Take(w);
    assert(f.take_ok(w));
    assert(f.hand_ok(me));
    lemma_bag_counts(f, me);
    assert(f.trade.found(me) == f.bag(me).to_set());
    trade::settle_take_keeps_consistent(f.trade, w);
    assert(g.trade.place.dom() =~= f.trade.place.dom());
    assert(g.take_ok(w));
    assert forall|n: u64| #[trigger] g.trade.place.dom().contains(n) implies match finder(
        g.trade.place[n],
    ) {
        Some(h) => if h == me {
            g.bag(me).contains(n) && g.trade.place[n] == g.bag_place(me)
        } else {
            f.trade.place.dom().contains(n) && f.trade.place[n] == g.trade.place[n]
        },
        None => true,
    } by {
        assert(f.trade.place.dom().contains(n));
        assert(f.claimed(n));
    }
    assert(g.bag_ok(me)) by {
        assert forall|i: int| 0 <= i < g.bag(me).len() implies g.trade.place.dom().contains(
            #[trigger] g.bag(me)[i],
        ) && g.trade.place[g.bag(me)[i]] == g.bag_place(me) by {
            assert(f.trade.place.dom().contains(f.bag(me)[i]));
        }
    }
    lemma_own_bag(f, g, me);
}

/// A request that has put everything back starts over.
proof fn lemma_take_starts_over(f: Floor, w: int)
    requires
        f.agrees(),
        f.takes.dom().contains(w),
        f.takes[w].at == TakeAt::Recycle,
        f.takes[w].found.len() == 0,
    ensures
        f.step_take(w).agrees(),
        f.step_take(w).trade.lent() == f.trade.lent(),
{
    let g = f.step_take(w);
    let me = Hand::Take(w);
    assert(f.take_ok(w));
    assert(f.hand_ok(me));
    lemma_bag_counts(f, me);
    assert(f.trade.settled(me) =~= Set::<u64>::empty()) by {
        assert(f.bag(me).to_set() =~= Set::<u64>::empty());
    }
    trade::start_over_keeps_consistent(f.trade, w);
    assert(g.take_ok(w));
    assert forall|n: u64| #[trigger] g.trade.place.dom().contains(n) implies match finder(
        g.trade.place[n],
    ) {
        Some(h) => h != me,
        None => true,
    } by {
        assert(f.claimed(n));
    }
    lemma_own_bag(f, g, me);
}

/// Every step of a request keeps trade and pool in agreement, and changes
/// nothing about what is on loan. The request can always take it: its handle is
/// its own, and the link that it reads is there.
pub proof fn request_keeps_agreement(f: Floor, w: int)
    requires
        f.agrees(),
        f.takes.dom().contains(w),
    ensures
        f.takes[w].fits(f.pool),
        f.step_take(w).agrees(),
        f.step_take(w).trade.lent() == f.trade.lent(),
{
    let op = f.takes[w];
    assert(f.take_ok(w));
    assert(f.hand_ok(Hand::Take(w)));
    match op.at {
        TakeAt::Acquire => {
            lemma_take_enters(f, w);
        },
        TakeAt::Pop => {
            lemma_take_pops(f, w);
        },
        TakeAt::Publish => {
            lemma_take_publishes(f, w);
        },
        TakeAt::Withdraw | TakeAt::Clear => {
            lemma_take_clears(f, w);
        },
        TakeAt::Count | TakeAt::Made { .. } => {
            lemma_take_counts(f, w);
        },
        TakeAt::Room => {
            if f.pool.allocated < f.pool.alloc_max {
                lemma_take_counts(f, w);
            } else {
                lemma_take_begins_search(f, w);
            }
        },
        TakeAt::Leave | TakeAt::LeaveToGrow | TakeAt::LeaveEmpty => {
            lemma_take_leaves(f, w);
        },
        TakeAt::Search => {
            lemma_take_searches(f, w);
        },
        TakeAt::Settle => {
            lemma_take_settles(f, w);
        },
        TakeAt::Recycle => {
            if op.found.len() == 0 {
                lemma_take_starts_over(f, w);
            } else {
                assert(f.step_take(w).takes =~= f.takes);
            }
        },
        TakeAt::Grow | TakeAt::Ready { .. } | TakeAt::Refused => {
            assert(f.step_take(w).takes =~= f.takes);
        },
    }
}

/// A call that begins or ends without a handle and without nodes that it has
/// found keeps trade and pool in agreement.
proof fn lemma_comes_or_goes(f: Floor, g: Floor, me: Hand)
    requires
        f.agrees(),
        g.trade.consistent(),
        g.same_words(),
        others_stay(f, g, me),
        g.pool.hp == f.pool.hp,
        g.owner == f.owner,
        g.stored == f.stored,
        g.trade.threads == f.trade.threads,
        g.trade.crowd.doomed == f.trade.crowd.doomed,
        g.trade.crowd.hazards == f.trade.crowd.hazards,
        !f.holds(me),
        !g.holds(me),
        f.shows(me) == 0,
        !g.seeks(me),
        f.bag(me).len() == 0,
        g.bag(me).len() == 0,
        forall|n: u64| #[trigger]
            f.trade.place.dom().contains(n) && (finder(f.trade.place[n]) is Some
                || f.trade.place[n] == Place::Waiting) ==> g.trade.place.dom().contains(n)
                && g.trade.place[n] == f.trade.place[n],
        forall|n: u64| #[trigger]
            g.trade.place.dom().contains(n) && finder(g.trade.place[n]) is Some
                ==> f.trade.place.dom().contains(n) && f.trade.place[n] == g.trade.place[n],
        forall|v: int|
            me != Hand::Take(v) ==> {
                &&& #[trigger] g.takes.dom().contains(v) == f.takes.dom().contains(v)
                &&& g.takes[v] == f.takes[v]
            },
        forall|v: int|
            me != Hand::Give(v) ==> {
                &&& #[trigger] g.gives.dom().contains(v) == f.gives.dom().contains(v)
                &&& g.gives[v] == f.gives[v]
            },
    ensures
        g.agrees(),
{
    assert forall|l: int| 0 <= l < g.pool.hp.slots.len() implies #[trigger] left_ok(
        f,
        g,
        me,
        l,
    ) by {
        assert(f.handle_ok(l));
    }
    assert forall|n: u64| #[trigger] g.trade.place.dom().contains(n) implies still_claimed(
        f,
        g,
        me,
        n,
    ) by {
        if finder(g.trade.place[n]) is Some {
            assert(f.trade.place.dom().contains(n));
            assert(f.claimed(n));
        }
    }
    assert forall|n: u64, w: int|
        g.trade.crowd.doomed.dom().contains(n) && g.trade.threads.contains(
            w,
        ) implies #[trigger] g.watched(n, w) by {
        assert(f.watched(n, w));
    }
    lemma_agrees(f, g, me);
}

/// A thread may begin to ask for a buffer at any time.
pub proof fn starting_a_request_keeps_agreement(f: Floor, w: int)
    requires
        f.agrees(),
        f.trade.threads.contains(w),
        !f.takes.dom().contains(w),
    ensures
        f.start_take(w).agrees(),
        f.start_take(w).trade.lent() == f.trade.lent(),
{
    let g = f.start_take(w);
    assert(f.take_ok(w));
    assert(g.take_ok(w));
    lemma_comes_or_goes(f, g, Hand::Take(w));
}

/// A buffer that a request returns with is nobody else's, however the calls of
/// all threads have overlapped: it is not null, it is aligned, it was not on
/// loan, and its bytes are part of no buffer on loan. From now on it is on loan.
pub proof fn returned_buffer_is_nobody_elses(f: Floor, w: int)
    requires
        f.agrees(),
        f.takes.dom().contains(w),
        f.takes[w].at is Ready || f.takes[w].at == TakeAt::Refused,
    ensures
        f.end_take(w).agrees(),
        f.takes[w].at matches TakeAt::Ready { word } ==> {
            let node = stack::node_of(word);
            let shape = f.trade.shape;
            &&& shape.can_lend(f.trade.lent(), node + shape.offset)
            &&& !f.trade.lent().contains(node)
            &&& f.end_take(w).trade.lent() == f.trade.lent().insert(node)
        },
        f.takes[w].at == TakeAt::Refused ==> f.end_take(w).trade.lent() == f.trade.lent(),
{
    let g = f.end_take(w);
    assert(f.take_ok(w));
    assert(f.hand_ok(Hand::Take(w)));
    if let TakeAt::Ready { word } = f.takes[w].at {
        let node = stack::node_of(word);
        trade::lent_buffer_is_nobody_elses(f.trade, w);
        assert(f.trade.thread_ok(w));
        assert(f.trade.hand_node(Hand::Take(w)) == Some(node));
    }
    assert(g.take_ok(w));
    lemma_comes_or_goes(f, g, Hand::Take(w));
}

/// A buffer on loan may be returned at any time; from now on it is not on loan.
pub proof fn starting_a_return_keeps_agreement(f: Floor, w: int, word: u64)
    requires
        f.agrees(),
        f.trade.threads.contains(w),
        !f.gives.dom().contains(w),
        f.trade.lent().contains(stack::node_of(word)),
    ensures
        f.start_give(w, word).agrees(),
        f.start_give(w, word).trade.lent() == f.trade.lent().remove(stack::node_of(word)),
{
    let g = f.start_give(w, word);
    assert(f.give_ok(w));
    trade::start_give_keeps_consistent(f.trade, w, word);
    assert(g.give_ok(w));
    lemma_comes_or_goes(f, g, Hand::Give(w));
}

/// A return takes the next handle, if it is free.
proof fn lemma_give_enters(f: Floor, w: int)
    requires
        f.agrees(),
        f.gives.dom().contains(w),
        f.gives[w].at == GiveAt::Acquire,
    ensures
        f.step_give(w).agrees(),
        f.step_give(w).trade.lent() == f.trade.lent(),
{
    let g = f.step_give(w);
    let me = Hand::Give(w);
    let l = f.gives[w].local;
    assert(f.give_ok(w));
    assert(g.give_ok(w));
    if l < f.pool.hp.available.len() && f.pool.hp.available[l] {
        lemma_moved_in(f, g, me, l);
    } else {
        lemma_comes_or_goes(f, g, me);
    }
}

/// A return that reads or changes a counter, or goes on with its push.
proof fn lemma_give_goes_on(f: Floor, w: int)
    requires
        f.agrees(),
        f.gives.dom().contains(w),
        match f.gives[w].at {
            GiveAt::Full | GiveAt::Push | GiveAt::Count => true,
            _ => false,
        },
        f.gives[w].at == GiveAt::Push && f.gives[w].push.at == PushStep::Swap
            ==> f.trade.crowd.unexpected(f.gives[w].word),
    ensures
        f.step_give(w).agrees(),
        f.step_give(w).trade.lent() == f.trade.lent(),
{
    let g = f.step_give(w);
    let t = f.trade;
    let me = Hand::Give(w);
    assert(f.give_ok(w));
    assert(f.hand_ok(me));
    assert(t.thread_ok(w));
    match f.gives[w].at {
        GiveAt::Full => {
            trade::read_list_keeps_consistent(t, w);
        },
        GiveAt::Push => {
            assert(t.pushing(w));
            trade::step_give_keeps_consistent(t, w);
            assert(t.hand_node(me) == Some(stack::node_of(f.gives[w].word)));
        },
        _ => {
            trade::count_pushed_keeps_consistent(t, w);
        },
    }
    assert(g.give_ok(w));
    lemma_plain(f, g, me);
}

/// A return that changes what it publishes, or gives its handle back.
proof fn lemma_give_slot(f: Floor, w: int)
    requires
        f.agrees(),
        f.gives.dom().contains(w),
        match f.gives[w].at {
            GiveAt::Publish | GiveAt::Withdraw | GiveAt::Clear | GiveAt::Leave | GiveAt::PublishOwn
            | GiveAt::ClearOwn | GiveAt::LeaveOwn => true,
            _ => false,
        },
    ensures
        f.step_give(w).agrees(),
        f.step_give(w).trade.lent() == f.trade.lent(),
{
    let g = f.step_give(w);
    let me = Hand::Give(w);
    assert(f.give_ok(w));
    assert(f.hand_ok(me));
    assert(g.give_ok(w));
    assert forall|n: u64, v: int|
        g.trade.crowd.doomed.dom().contains(n) && g.trade.threads.contains(
            v,
        ) implies #[trigger] g.watched(n, v) by {
        assert(f.watched(n, v));
    }
    lemma_only_slot(f, g, me);
}

/// A return retires its node.
proof fn lemma_give_retires(f: Floor, w: int)
    requires
        f.agrees(),
        f.gives.dom().contains(w),
        f.gives[w].at == GiveAt::Retire,
    ensures
        f.step_give(w).agrees(),
        f.step_give(w).trade.lent() == f.trade.lent(),
{
    let g = f.step_give(w);
    let t = f.trade;
    let me = Hand::Give(w);
    let node = stack::node_of(f.gives[w].word);
    let l = f.gives[w].local;
    assert(f.give_ok(w));
    assert(f.hand_ok(me));
    assert(t.thread_ok(w));
    assert(t.hand_node(me) == Some(node));
    assert(t.spot_ok(node));
    trade::retire_keeps_consistent(t, w);
    let u = t.retire(w);
    trade::survey_keeps_consistent(u);
    assert(!f.stored.dom().contains(node));
    assert(g.give_ok(w));
    assert forall|k: int| 0 <= k < g.pool.hp.slots.len() implies #[trigger] left_ok(
        f,
        g,
        me,
        k,
    ) by {
        assert(f.handle_ok(k));
        let (a, b) = (f.pool.hp.retired[k], g.pool.hp.retired[k]);
        assert forall|i: int| 0 <= i < b.len() implies g.stored.dom().contains(#[trigger] b[i])
            && g.stored[b[i]] == Spot::Retired(k) by {
            if i < a.len() {
                assert(b[i] == a[i]);
                assert(f.stored.dom().contains(a[i]));
            }
        }
        assert(b.no_duplicates()) by {
            assert forall|i: int, j: int| 0 <= i < j < b.len() implies b[i] != b[j] by {
                assert(b[i] == a[i]);
                assert(f.stored.dom().contains(a[i]));
                if j < a.len() {
                    assert(b[j] == a[j]);
                }
            }
        }
    }
    assert forall|n: u64| #[trigger] g.trade.place.dom().contains(n) implies still_claimed(
        f,
        g,
        me,
        n,
    ) by {
        if n != node {
            assert(f.claimed(n));
        }
    }
    assert forall|n: u64, v: int|
        g.trade.crowd.doomed.dom().contains(n) && g.trade.threads.contains(
            v,
        ) implies #[trigger] g.watched(n, v) by {
        if u.crowd.hazards[v] != n {
            assert(u.crowd.clear_of(n).contains(v));
        }
    }
    assert forall|n: u64| #[trigger] f.stored.dom().contains(
        n,
    ) implies f.trade.crowd.doomed.dom().contains(n) by {
        assert(f.trade.place.dom().contains(n));
        assert(f.trade.spot_ok(n));
    }
    lemma_agrees(f, g, me);
}

/// A return counts the node that it has retired.
proof fn lemma_give_counts_retired(f: Floor, w: int)
    requires
        f.agrees(),
        f.gives.dom().contains(w),
        f.gives[w].at == GiveAt::CountRetired,
    ensures
        f.step_give(w).agrees(),
        f.step_give(w).trade.lent() == f.trade.lent(),
{
    let g = f.step_give(w);
    let me = Hand::Give(w);
    assert(f.give_ok(w));
    assert(f.hand_ok(me));
    trade::count_retired_keeps_consistent(f.trade, w);
    assert(g.give_ok(w));
    assert forall|n: u64| #[trigger] g.trade.place.dom().contains(n) implies match finder(
        g.trade.place[n],
    ) {
        Some(h) => h != me,
        None => true,
    } by {
        assert(f.claimed(n));
    }
    lemma_own_bag(f, g, me);
}

/// A return goes on with its search, or is through with it.
proof fn lemma_give_searches(f: Floor, w: int)
    requires
        f.agrees(),
        f.gives.dom().contains(w),
        f.gives[w].at == GiveAt::Search,
    ensures
        f.step_give(w).agrees(),
        f.step_give(w).trade.lent() == f.trade.lent(),
{
    let g = f.step_give(w);
    let me = Hand::Give(w);
    let s = f.gives[w].search;
    assert(f.give_ok(w));
    assert(f.hand_ok(me));
    if s.busy() {
        lemma_in_hand(f, me);
    }
    let after = reclaim::reclaim_next(s, f.pool.hp).0;
    if after.at != ReclaimAt::Done {
        assert(g.give_ok(w));
        lemma_search_goes_on(f, g, me);
    } else {
        lemma_sorted_bag(s.handed);
        let found = order::in_order(s.handed.to_set());
        assert forall|i: int| 0 <= i < found.len() implies f.trade.place.dom().contains(
            #[trigger] found[i],
        ) && f.trade.place[found[i]] == Place::Found(me) by {
            assert(found.contains(found[i]));
            assert(s.handed.contains(found[i]));
            let j = choose|j: int| 0 <= j < s.handed.len() && s.handed[j] == found[i];
            assert(f.trade.place.dom().contains(f.bag(me)[j]));
        }
        assert(g.give_ok(w));
        assert forall|n: u64| #[trigger] g.trade.place.dom().contains(n) implies match finder(
            g.trade.place[n],
        ) {
            Some(h) => h == me ==> g.bag(me).contains(n) && g.trade.place[n] == g.bag_place(me),
            None => true,
        } by {
            assert(f.claimed(n));
        }
        lemma_own_bag(f, g, me);
    }
}

/// A return counts what it has found, first as no longer waiting, then as no
/// longer owned.
proof fn lemma_give_settles(f: Floor, w: int)
    requires
        f.agrees(),
        f.gives.dom().contains(w),
        f.gives[w].at == GiveAt::Settle || f.gives[w].at == GiveAt::WriteOff,
    ensures
        f.step_give(w).agrees(),
        f.step_give(w).trade.lent() == f.trade.lent(),
{
    let g = f.step_give(w);
    let me = Hand::Give(w);
    assert(f.give_ok(w));
    assert(f.hand_ok(me));
    lemma_bag_counts(f, me);
    if f.gives[w].at == GiveAt::Settle {
        assert(f.trade.found(me) == f.bag(me).to_set());
        trade::settle_give_keeps_consistent(f.trade, w);
    } else {
        assert(f.trade.settled(me) == f.bag(me).to_set());
        trade::write_off_keeps_consistent(f.trade, w);
    }
    assert(g.trade.place.dom() =~= f.trade.place.dom());
    assert(g.give_ok(w));
    assert forall|n: u64| #[trigger] g.trade.place.dom().contains(n) implies match finder(
        g.trade.place[n],
    ) {
        Some(h) => if h == me {
            g.bag(me).contains(n) && g.trade.place[n] == g.bag_place(me)
        } else {
            f.trade.place.dom().contains(n) && f.trade.place[n] == g.trade.place[n]
        },
        None => true,
    } by {
        assert(f.trade.place.dom().contains(n));
        assert(f.claimed(n));
    }
    assert(g.bag_ok(me)) by {
        assert forall|i: int| 0 <= i < g.bag(me).len() implies g.trade.place.dom().contains(
            #[trigger] g.bag(me)[i],
        ) && g.trade.place[g.bag(me)[i]] == g.bag_place(me) by {
            assert(f.trade.place.dom().contains(f.bag(me)[i]));
        }
    }
    lemma_own_bag(f, g, me);
}

/// A return that has released everything is complete.
proof fn lemma_give_completes(f: Floor, w: int)
    requires
        f.agrees(),
        f.gives.dom().contains(w),
        f.gives[w].at == GiveAt::Free,
        f.gives[w].found.len() == 0,
    ensures
        f.step_give(w).agrees(),
        f.step_give(w).trade.lent() == f.trade.lent(),
{
    let g = f.step_give(w);
    let me = Hand::Give(w);
    assert(f.give_ok(w));
    assert(f.hand_ok(me));
    assert forall|n: u64| #[trigger] f.trade.place.dom().contains(n) implies finder(
        f.trade.place[n],
    ) != Some(me) by {
        assert(f.claimed(n));
    }
    trade::complete_keeps_consistent(f.trade, w);
    assert(g.give_ok(w));
    lemma_own_bag(f, g, me);
}

/// Every step of a return keeps trade and pool in agreement, and changes
/// nothing about what is on loan. The return can always take it. This holds unless
/// the tag of the node has come back to a value that a request in progress has
/// seen.
pub proof fn return_keeps_agreement(f: Floor, w: int)
    requires
        f.agrees(),
        f.gives.dom().contains(w),
        f.gives[w].at == GiveAt::Push && f.gives[w].push.at == PushStep::Swap
            ==> f.trade.crowd.unexpected(f.gives[w].word),
    ensures
        f.gives[w].fits(f.pool),
        f.step_give(w).agrees(),
        f.step_give(w).trade.lent() == f.trade.lent(),
{
    let op = f.gives[w];
    assert(f.give_ok(w));
    assert(f.hand_ok(Hand::Give(w)));
    match op.at {
        GiveAt::Acquire => {
            lemma_give_enters(f, w);
        },
        GiveAt::Full | GiveAt::Push | GiveAt::Count => {
            lemma_give_goes_on(f, w);
        },
        GiveAt::Publish | GiveAt::Withdraw | GiveAt::Clear | GiveAt::Leave | GiveAt::PublishOwn
        | GiveAt::ClearOwn | GiveAt::LeaveOwn => {
            lemma_give_slot(f, w);
        },
        GiveAt::Retire => {
            lemma_give_retires(f, w);
        },
        GiveAt::CountRetired => {
            lemma_give_counts_retired(f, w);
        },
        GiveAt::Search => {
            lemma_give_searches(f, w);
        },
        GiveAt::Settle | GiveAt::WriteOff => {
            lemma_give_settles(f, w);
        },
        GiveAt::Free => {
            if op.found.len() == 0 {
                lemma_give_completes(f, w);
            } else {
                assert(f.step_give(w).gives =~= f.gives);
            }
        },
        GiveAt::Done | GiveAt::Refused => {
            assert(f.step_give(w).gives =~= f.gives);
        },
    }
}

/// A return that is complete may end, and so may one for which there was no
/// handle: its buffer is on loan again.
pub proof fn ending_a_return_keeps_agreement(f: Floor, w: int)
    requires
        f.agrees(),
        f.gives.dom().contains(w),
        f.gives[w].at == GiveAt::Done || f.gives[w].at == GiveAt::Refused,
    ensures
        f.end_give(w).agrees(),
        f.end_give(w).trade.lent() == if f.gives[w].at == GiveAt::Refused {
            f.trade.lent().insert(stack::node_of(f.gives[w].word))
        } else {
            f.trade.lent()
        },
{
    let g = f.end_give(w);
    let me = Hand::Give(w);
    assert(f.give_ok(w));
    assert(f.hand_ok(me));
    if f.gives[w].at == GiveAt::Refused {
        trade::refuse_keeps_consistent(f.trade, w);
        assert(f.trade.thread_ok(w));
        assert(f.trade.hand_node(me) == Some(stack::node_of(f.gives[w].word)));
    }
    assert(g.give_ok(w));
    lemma_comes_or_goes(f, g, me);
}

/// A request may put back what it has found.
pub proof fn putting_back_keeps_agreement(f: Floor, w: int)
    requires
        f.agrees(),
        f.takes.dom().contains(w),
        f.takes[w].at == TakeAt::Recycle,
        f.takes[w].found.len() > 0,
        !f.gives.dom().contains(w),
    ensures
        f.put_back(w).agrees(),
        f.put_back(w).trade.lent() == f.trade.lent(),
{
    let t = f.trade;
    let found = f.takes[w].found;
    let node = found.first();
    let (me, other) = (Hand::Take(w), Hand::Give(w));
    assert(f.take_ok(w));
    assert(f.give_ok(w));
    assert(f.hand_ok(me));
    assert(f.hand_ok(other));
    assert(t.place.dom().contains(f.bag(me)[0]));
    trade::put_back_keeps_consistent(t, w, node);
    assert(t.spot_ok(node));
    assert(t.shape.fits(node));
    let g = f.put_back(w);
    let rest = found.drop_first();
    assert(g.bag(me) == rest);
    assert forall|h: Hand| #[trigger] g.hand_ok(h) by {
        assert(f.hand_ok(h));
        if h != other {
            if h == me {
                assert forall|i: int| 0 <= i < rest.len() implies g.trade.place.dom().contains(
                    #[trigger] rest[i],
                ) && g.trade.place[rest[i]] == g.bag_place(me) by {
                    assert(rest[i] == found[i + 1]);
                    assert(found[0] != found[i + 1]);
                    assert(t.place.dom().contains(f.bag(me)[i + 1]));
                }
                assert(rest.no_duplicates()) by {
                    assert forall|i: int, j: int|
                        0 <= i < j < rest.len() implies rest[i] != rest[j] by {
                        assert(found[i + 1] != found[j + 1]);
                    }
                }
            } else {
                lemma_put_back_spares(f, w, h);
            }
        }
    }
    assert forall|k: int| 0 <= k < g.pool.hp.slots.len() implies #[trigger] g.handle_ok(k) by {
        assert(f.handle_ok(k));
        if f.owner.dom().contains(k) {
            assert(f.hand_ok(f.owner[k]));
        }
    }
    assert forall|v: int| #[trigger] g.take_ok(v) by {
        assert(f.take_ok(v));
    }
    assert forall|v: int| #[trigger] g.give_ok(v) by {
        assert(f.give_ok(v));
    }
    assert forall|n: u64| g.trade.place.dom().contains(n) implies #[trigger] g.claimed(n) by {
        assert(f.claimed(n));
        if n != node && finder(t.place[n]) == Some(me) {
            let i = choose|i: int| 0 <= i < found.len() && found[i] == n;
            assert(rest[i - 1] == n);
        }
    }
    assert forall|n: u64, v: int|
        g.trade.crowd.doomed.dom().contains(n) && g.trade.threads.contains(
            v,
        ) implies #[trigger] g.watched(n, v) by {
        assert(f.watched(n, v));
    }
}

/// A request that puts a node back spares the calls of other threads.
proof fn lemma_put_back_spares(f: Floor, w: int, h: Hand)
    requires
        f.agrees(),
        f.takes.dom().contains(w),
        f.takes[w].at == TakeAt::Recycle,
        f.takes[w].found.len() > 0,
        f.trade.place.dom().contains(f.takes[w].found.first()),
        f.trade.place[f.takes[w].found.first()] == Place::Settled(Hand::Take(w)),
        !f.gives.dom().contains(w),
        h != Hand::Take(w),
        h != Hand::Give(w),
    ensures
        f.put_back(w).hand_ok(h),
{
    let g = f.put_back(w);
    assert(f.hand_ok(h));
    assert(g.bag(h) == f.bag(h));
    if f.seeks(h) {
        let s = f.search(h);
        if s.at == ReclaimAt::Look {
            lemma_in_hand(f, h);
            let p = s.in_hand();
            assert forall|v: int| #[trigger] g.trade.threads.contains(v)
                && !g.trade.crowd.doomed[p].contains(v) implies s.ahead(
                g.local(Hand::Take(v)),
                0,
            ) by {
                assert(f.trade.threads.contains(v));
            }
        }
    }
    assert forall|i: int| 0 <= i < f.bag(h).len() implies g.trade.place.dom().contains(
        #[trigger] f.bag(h)[i],
    ) && g.trade.place[f.bag(h)[i]] == g.bag_place(h) by {
        assert(f.trade.place.dom().contains(f.bag(h)[i]));
    }
}

/// A return may give the memory of a node back that it has found: nobody relies
/// on it any more.
pub proof fn freeing_keeps_agreement(f: Floor, w: int)
    requires
        f.agrees(),
        f.gives.dom().contains(w),
        f.gives[w].at == GiveAt::Free,
        f.gives[w].found.len() > 0,
    ensures
        f.free(w).agrees(),
        f.free(w).trade.lent() == f.trade.lent(),
        forall|v: int| !#[trigger] f.trade.crowd.relies(v, f.gives[w].found.first()),
{
    let g = f.free(w);
    let t = f.trade;
    let me = Hand::Give(w);
    let found = f.gives[w].found;
    let node = found.first();
    let rest = found.drop_first();
    assert(f.give_ok(w));
    assert(f.hand_ok(me));
    assert(t.place.dom().contains(f.bag(me)[0]));
    trade::free_keeps_consistent(t, w, node);
    assert(g.give_ok(w));
    assert(g.bag(me) == rest);
    assert forall|i: int| 0 <= i < rest.len() implies g.trade.place.dom().contains(
        #[trigger] rest[i],
    ) && g.trade.place[rest[i]] == g.bag_place(me) by {
        assert(rest[i] == found[i + 1]);
        assert(found[0] != found[i + 1]);
        assert(t.place.dom().contains(f.bag(me)[i + 1]));
    }
    assert(rest.no_duplicates()) by {
        assert forall|i: int, j: int| 0 <= i < j < rest.len() implies rest[i] != rest[j] by {
            assert(found[i + 1] != found[j + 1]);
        }
    }
    assert forall|k: int| 0 <= k < g.pool.hp.slots.len() implies #[trigger] left_ok(
        f,
        g,
        me,
        k,
    ) by {
        assert(f.handle_ok(k));
    }
    assert forall|n: u64| #[trigger] g.trade.place.dom().contains(n) implies still_claimed(
        f,
        g,
        me,
        n,
    ) by {
        assert(f.claimed(n));
        if finder(t.place[n]) == Some(me) {
            let i = choose|i: int| 0 <= i < found.len() && found[i] == n;
            assert(rest[i - 1] == n);
        }
    }
    assert forall|n: u64, v: int|
        g.trade.crowd.doomed.dom().contains(n) && g.trade.threads.contains(
            v,
        ) implies #[trigger] g.watched(n, v) by {
        assert(f.watched(n, v));
    }
    lemma_agrees(f, g, me);
}

/// A pool on which nobody works yet is in order, for any number of threads and
/// handles.
pub proof fn fresh_pool_agrees(pool: PoolState, threads: Set<int>, shape: Shape, handles: nat, slots: nat)
    requires
        shape.sound(),
        threads.finite(),
        pool.alloc_max + threads.len() <= usize::MAX,
        slots >= 1,
        pool.words.head == 0,
        pool.hp == (HazardView {
            available: Seq::new(handles, |l: int| true),
            slots: Seq::new(handles, |l: int| Seq::new(slots, |s: int| 0u64)),
            retired: Seq::new(handles, |l: int| Seq::empty()),
        }),
        pool.allocated == 0,
        pool.in_list == 0,
        pool.retired == 0,
    ensures
        floor::fresh(pool, threads, shape).agrees(),
{
    let f = floor::fresh(pool, threads, shape);
    assert(f.trade.crowd.hazards.dom() =~= threads);
    trade::fresh_trade_is_consistent(f.trade);
}

/// The pool never owns more buffers than it may by more than the number of
/// threads, and once no call is in progress the counters account for every
/// buffer: it is in the list, it waits for release, or it is on loan.
pub proof fn counters_account_for_all_buffers(f: Floor)
    requires
        f.agrees(),
    ensures
        f.pool.allocated <= f.pool.alloc_max + f.trade.threads.len(),
        f.takes.dom() == Set::<int>::empty() && f.gives.dom() == Set::<int>::empty() ==> {
            &&& f.pool.in_list == f.trade.crowd.list.len()
            &&& f.pool.retired == f.trade.waiting().len()
            &&& f.pool.allocated == f.pool.in_list + f.pool.retired + f.trade.lent().len()
        },
{
    trade::pool_exceeds_its_maximum_by_the_threads_at_most(f.trade);
    if f.takes.dom() == Set::<int>::empty() && f.gives.dom() == Set::<int>::empty() {
        assert(f.trade.takes.dom() =~= Set::<int>::empty()) by {
            assert forall|w: int| !f.trade.takes.dom().contains(w) by {
                assert(f.take_ok(w));
            }
        }
        assert(f.trade.gives.dom() =~= Set::<int>::empty()) by {
            assert forall|w: int| !f.trade.gives.dom().contains(w) by {
                assert(f.give_ok(w));
            }
        }
        trade::nothing_is_lost_when_quiet(f.trade);
    }
}

/// An exchange that fails for no reason does no harm.
pub proof fn failed_exchange_keeps_agreement(f: Floor, w: int)
    requires
        f.agrees(),
    ensures
        f.takes.dom().contains(w) && f.takes[w].at == TakeAt::Pop && f.takes[w].pop.at
            == PopStep::Swap ==> f.retry_take(w).agrees() && f.retry_take(w).trade.lent()
            == f.trade.lent(),
        f.gives.dom().contains(w) && f.gives[w].at == GiveAt::Push && f.gives[w].push.at
            == PushStep::Swap ==> f.retry_give(w).agrees() && f.retry_give(w).trade.lent()
            == f.trade.lent(),
{
    let t = f.trade;
    assert(f.take_ok(w));
    assert(f.give_ok(w));
    assert(f.hand_ok(Hand::Take(w)));
    assert(f.hand_ok(Hand::Give(w)));
    assert(t.thread_ok(w));
    if f.takes.dom().contains(w) && f.takes[w].at == TakeAt::Pop && f.takes[w].pop.at
        == PopStep::Swap {
        let g = f.retry_take(w);
        trade::retry_take_keeps_consistent(t, w);
        assert(g.take_ok(w));
        lemma_plain(f, g, Hand::Take(w));
    }
    if f.gives.dom().contains(w) && f.gives[w].at == GiveAt::Push && f.gives[w].push.at
        == PushStep::Swap {
        let g = f.retry_give(w);
        trade::retry_give_keeps_consistent(t, w);
        assert(g.give_ok(w));
        lemma_plain(f, g, Hand::Give(w));
    }
}

/// Whatever happens next, trade and pool agree afterwards. What is on loan
/// changes only where a request returns with a buffer, a return begins, or a
/// return ends for want of a handle.
pub proof fn every_move_keeps_agreement(f: Floor, m: Move)
    requires
        f.agrees(),
        f.can(m),
    ensures
        f.after(m).agrees(),
        forall|node: u64| #[trigger]
            f.after(m).trade.lent().contains(node) ==> f.trade.lent().contains(node)
                || f.hands_out(m, node) || f.refuses(m, node),
        forall|node: u64| #[trigger]
            f.trade.lent().contains(node) ==> f.after(m).trade.lent().contains(node)
                || f.takes_back(m, node),
        forall|node: u64| #[trigger] f.hands_out(m, node) ==> !f.trade.lent().contains(node)
            && f.after(m).trade.lent().contains(node),
{
    match m {
        Move::StartTake(w) => {
            starting_a_request_keeps_agreement(f, w);
        },
        Move::StepTake(w) => {
            request_keeps_agreement(f, w);
        },
        Move::RetryTake(w) => {
            failed_exchange_keeps_agreement(f, w);
        },
        Move::Made(w, node) => {
            making_keeps_agreement(f, w, node);
        },
        Move::EndTake(w) => {
            returned_buffer_is_nobody_elses(f, w);
        },
        Move::StartGive(w, word) => {
            starting_a_return_keeps_agreement(f, w, word);
        },
        Move::PutBack(w) => {
            putting_back_keeps_agreement(f, w);
        },
        Move::StepGive(w) => {
            return_keeps_agreement(f, w);
        },
        Move::RetryGive(w) => {
            failed_exchange_keeps_agreement(f, w);
        },
        Move::Free(w) => {
            freeing_keeps_agreement(f, w);
        },
        Move::EndGive(w) => {
            ending_a_return_keeps_agreement(f, w);
        },
    }
}

/// Trade and pool agree in every state of a run that starts in agreement.
pub proof fn every_run_stays_in_agreement(floors: Seq<Floor>, moves: Seq<Move>, k: int)
    requires
        floor::is_run(floors, moves),
        floors[0].agrees(),
        0 <= k < floors.len(),
    ensures
        floors[k].agrees(),
    decreases k,
{
    if k > 0 {
        every_run_stays_in_agreement(floors, moves, k - 1);
        assert(floors[k - 1].can(moves[k - 1]));
        every_move_keeps_agreement(floors[k - 1], moves[k - 1]);
        assert(floors[k - 1 + 1] == floors[k - 1].after(moves[k - 1]));
    }
}

/// A buffer is on loan from when a request returns with it until its return
/// begins.
pub proof fn buffer_stays_on_loan(
    floors: Seq<Floor>,
    moves: Seq<Move>,
    a: int,
    b: int,
    node: u64,
)
    requires
        floor::is_run(floors, moves),
        floors[0].agrees(),
        0 <= a < b <= moves.len(),
        floors[a].hands_out(moves[a], node),
        forall|k: int| a < k < b ==> !floors[k].takes_back(#[trigger] moves[k], node),
    ensures
        floors[b].trade.lent().contains(node),
    decreases b,
{
    let f = floors[b - 1];
    every_run_stays_in_agreement(floors, moves, b - 1);
    assert(f.can(moves[b - 1]));
    assert(floors[b - 1 + 1] == f.after(moves[b - 1]));
    every_move_keeps_agreement(f, moves[b - 1]);
    if a < b - 1 {
        buffer_stays_on_loan(floors, moves, a, b - 1, node);
        assert(!f.takes_back(moves[b - 1], node));
    }
}

/// Between any two requests that return with the same buffer, that buffer has
/// been returned.
pub proof fn buffer_is_not_handed_out_twice(
    floors: Seq<Floor>,
    moves: Seq<Move>,
    a: int,
    b: int,
    node: u64,
)
    requires
        floor::is_run(floors, moves),
        floors[0].agrees(),
        0 <= a < b < moves.len(),
        floors[a].hands_out(moves[a], node),
        floors[b].hands_out(moves[b], node),
    ensures
        exists|k: int| a < k < b && floors[k].takes_back(#[trigger] moves[k], node),
{
    if forall|k: int| a < k < b ==> !floors[k].takes_back(#[trigger] moves[k], node) {
        buffer_stays_on_loan(floors, moves, a, b, node);
        every_run_stays_in_agreement(floors, moves, b);
        assert(floors[b].can(moves[b]));
        every_move_keeps_agreement(floors[b], moves[b]);
    }
}

} // verus!

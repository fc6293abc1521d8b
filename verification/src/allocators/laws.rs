//! What holds of a pool of buffers across several operations.

use super::pool;
use super::pool::PoolView;
use super::stack;
use crate::order;
use crate::ptr;
use vstd::prelude::*;
use vstd::set_lib::*;

verus! {

/// Every buffer that the pool owns is for reuse, waits for release or is on
/// loan; so with nothing on loan the two counters account for all of them.
pub proof fn every_buffer_is_accounted_for(v: PoolView)
    requires
        v.ok(),
    ensures
        v.allocated == v.list.len() + v.waiting().len() + v.held.len(),
        v.in_list == v.list.len(),
        v.retired == v.waiting().len(),
        v.held.len() == 0 ==> v.allocated == v.in_list + v.retired,
{
    reveal(PoolView::ok);
}

/// A buffer is in one place only: no buffer for reuse is on loan or waits for
/// release, none on loan waits for release, and the list names none twice.
pub proof fn no_buffer_is_in_two_places(v: PoolView, node: u64)
    requires
        v.ok(),
    ensures
        !(v.held.contains(node) && stack::stacked(v.list, node)),
        !(v.held.contains(node) && v.hp.waits(node)),
        !(v.hp.waits(node) && stack::stacked(v.list, node)),
        stack::distinct(v.list),
{
    reveal(PoolView::ok);
    if stack::stacked(v.list, node) {
        let i = choose|i: int| 0 <= i < v.list.len() && stack::node_of(#[trigger] v.list[i]) == node;
    }
}

/// A buffer that has been put on the list is the next one to be lent, and
/// lending it again leaves the pool as it was: last in, first out, and no new
/// buffer is needed.
pub proof fn returned_buffer_is_lent_next(v: PoolView, word: u64)
    requires
        v.ok(),
        v.held.contains(stack::node_of(word)),
        v.in_list < v.list_max,
    ensures
        v.returned(word).0.list.last() == word,
        v.returned(word).0.popped() == v,
        v.returned(word).0.allocated == v.allocated,
        v.returned(word).1.len() == 0,
{
    let w = v.returned(word).0;
    assert(w.list.drop_last() =~= v.list);
    assert(w.popped().held =~= v.held);
    assert(w.popped() =~= v);
}

/// A buffer that comes back is no longer on loan, and no other buffer changes
/// hands; the pool owns so many buffers less as it has released.
pub proof fn returning_moves_one_buffer(v: PoolView, word: u64)
    requires
        v.ok(),
        v.held.contains(stack::node_of(word)),
    ensures
        v.returned(word).0.held == v.held.remove(stack::node_of(word)),
        v.returned(word).0.allocated + v.returned(word).1.len() == v.allocated,
        v.in_list >= v.list_max ==> v.returned(word).0.list == v.list,
        v.in_list < v.list_max ==> v.returned(word).0.list == v.list.push(word),
        v.in_list < v.list_max ==> v.returned(word).0.hp == v.hp,
{
    let node = stack::node_of(word);
    let r = v.retired_one(node);
    if v.in_list >= v.list_max {
        pool::lemma_retired_one_ok(v, node);
        assert(r.waiting().finite()) by {
            reveal(PoolView::ok);
        }
        exhausted_pool_has_lent_everything(r);
        order::lemma_set_in_order(r.releasable());
    }
}

/// Not more buffers wait for release than may: once there is one too many, all of
/// them are released, and not before.
pub proof fn waiting_buffers_are_released_in_time(v: PoolView, word: u64)
    requires
        v.ok(),
        v.held.contains(stack::node_of(word)),
        v.retired_max >= 0,
    ensures
        v.retired <= v.retired_max ==> v.returned(word).0.retired <= v.retired_max,
        v.returned(word).1.len() > 0 <==> v.in_list >= v.list_max && v.retired + 1 > v.retired_max,
        v.returned(word).1.len() > 0 ==> v.returned(word).0.retired == 0 && v.returned(word).1.len()
            == v.retired + 1,
        v.returned(word).1.len() == 0 && v.in_list >= v.list_max ==> v.returned(word).0.retired
            == v.retired + 1,
        v.in_list < v.list_max ==> v.returned(word).0.retired == v.retired,
{
    let node = stack::node_of(word);
    let r = v.retired_one(node);
    assert(v.retired >= 0) by {
        reveal(PoolView::ok);
    }
    if v.in_list >= v.list_max {
        pool::lemma_retired_one_ok(v, node);
        assert(r.waiting().finite() && r.retired == r.waiting().len()) by {
            reveal(PoolView::ok);
        }
        exhausted_pool_has_lent_everything(r);
        order::lemma_set_in_order(r.releasable());
    }
}

/// What is released is what waits and is not protected, each once, in ascending
/// order.
pub proof fn released_buffers_come_in_order(v: PoolView, word: u64)
    requires
        v.ok(),
        v.held.contains(stack::node_of(word)),
        v.returned(word).1.len() > 0,
    ensures
        forall|i: int, j: int|
            0 <= i < j < v.returned(word).1.len() ==> v.returned(word).1[i] < v.returned(word).1[j],
        forall|p: u64| #[trigger]
            v.returned(word).1.contains(p) <==> p == stack::node_of(word) || v.hp.waits(p),
{
    let node = stack::node_of(word);
    let r = v.retired_one(node);
    pool::lemma_retired_one_ok(v, node);
    assert(r.waiting().finite() && 0 < v.hp.retired.len()) by {
        reveal(PoolView::ok);
    }
    exhausted_pool_has_lent_everything(r);
    order::lemma_set_in_order(r.releasable());
    assert forall|p: u64| #[trigger]
        v.returned(word).1.contains(p) <==> p == node || v.hp.waits(p) by {
        pool::lemma_waits_retired(v.hp, 0, node);
        assert(v.returned(word).1.to_set().contains(p) <==> r.releasable().contains(p));
        assert(r.waiting().contains(p) <==> r.hp.waits(p));
        assert(r.hp.waits(p) <==> v.hp.waits(p) || p == node);
    }
}

/// No operation changes the layout of a pool or its limits.
pub proof fn limits_of_a_pool_never_change(v: PoolView, word: u64, node: u64)
    ensures
        same_limits(v.returned(word).0, v),
        same_limits(v.popped(), v),
        same_limits(v.adopted(node), v),
        same_limits(v.deallocated(), v),
        same_limits(v.recycled().0, v),
{
    lemma_same_limits(v.recalled(), order::in_order(v.releasable()));
}

/// Whether two pools have the same layout and the same limits.
pub open spec fn same_limits(a: PoolView, b: PoolView) -> bool {
    &&& a.layout == b.layout
    &&& a.record == b.record
    &&& a.offset == b.offset
    &&& a.alloc_max == b.alloc_max
    &&& a.list_max == b.list_max
    &&& a.retired_max == b.retired_max
}

/// Taking several buffers back keeps the limits.
proof fn lemma_same_limits(v: PoolView, nodes: Seq<u64>)
    ensures
        same_limits(v.returned_all(nodes).0, v),
    decreases nodes.len(),
{
    if nodes.len() > 0 {
        lemma_same_limits(v, nodes.drop_last());
    }
}

/// Lending a buffer takes the most recent one off the list and nothing else.
pub proof fn lending_takes_the_top(v: PoolView)
    requires
        v.ok(),
        v.list.len() > 0,
    ensures
        v.popped().list.push(v.list.last()) == v.list,
        v.popped().held == v.held.insert(stack::node_of(v.list.last())),
        v.popped().in_list == v.in_list - 1,
        v.popped().retired == v.retired,
        v.popped().hp == v.hp,
{
    assert(v.list.drop_last().push(v.list.last()) =~= v.list);
}

/// A new buffer is on loan, and the pool owns one more; nothing else changes.
pub proof fn growing_adds_one_buffer(v: PoolView, node: u64)
    ensures
        v.adopted(node).held == v.held.insert(node),
        v.adopted(node).allocated == v.allocated + 1,
        v.adopted(node).list == v.list,
        v.adopted(node).in_list == v.in_list,
        v.adopted(node).retired == v.retired,
        v.adopted(node).hp == v.hp,
{
}

/// A buffer that is lent from the list was not on loan, and the pool does not
/// keep it afterwards: so nobody gets a buffer that someone else has.
pub proof fn lent_buffer_was_not_on_loan(v: PoolView)
    requires
        v.ok(),
        v.list.len() > 0,
    ensures
        !v.held.contains(stack::node_of(v.list.last())),
        v.popped().held.contains(stack::node_of(v.list.last())),
        !v.popped().keeps(stack::node_of(v.list.last())),
        v.popped().allocated == v.allocated,
{
    pool::lemma_popped_ok(v);
}

/// A buffer that is lent, whether for reuse or new, satisfies the layout that
/// the pool was created with, and nobody else has any of its bytes: it is not
/// null, it is aligned, and it overlaps no buffer on loan.
pub proof fn lent_buffer_satisfies_the_layout(v: PoolView, node: u64)
    requires
        v.ok(),
        v.list.len() > 0 && node == stack::node_of(v.list.last()) || v.fits(node) && (forall|
            p: u64,
        | #[trigger]
            v.owns(p) ==> v.apart(node, p)),
    ensures
        v.can_lend(node + v.offset),
{
    if v.list.len() > 0 && node == stack::node_of(v.list.last()) {
        assert(v.list[v.list.len() - 1] == v.list.last());
        pool::lemma_top_can_be_lent(v);
    } else {
        pool::lemma_adopted_ok(v, node);
    }
}

/// No two buffers on loan share a byte.
pub proof fn buffers_on_loan_do_not_overlap(v: PoolView, a: u64, b: u64)
    requires
        v.ok(),
        v.held.contains(a),
        v.held.contains(b),
        a != b,
    ensures
        a + v.offset + v.layout.size <= b || b + v.offset + v.layout.size <= a,
{
    reveal(PoolView::ok);
    assert(v.owns(a) && v.owns(b));
}

/// Using the buffers again that wait for release takes nothing away from
/// anyone: afterwards the same buffers are on loan as before, and the next one
/// on the list is not among them.
pub proof fn recycling_takes_nothing_on_loan(v: PoolView)
    requires
        v.ok(),
        v.releasable().len() > 0,
    ensures
        v.recycled().0.ok(),
        v.recycled().0.held == v.held,
        v.recycled().0.list.len() > 0,
        !v.held.contains(stack::node_of(v.recycled().0.list.last())),
{
    assert(v.waiting().finite()) by {
        reveal(PoolView::ok);
    }
    pool::lemma_waits_reclaimed(v);
    pool::lemma_recalled_ok(v);
    order::lemma_set_in_order(v.releasable());
    let nodes = order::in_order(v.releasable());
    let w = v.recalled();
    assert forall|i: int| 0 <= i < nodes.len() implies w.held.contains(#[trigger] nodes[i]) by {
        assert(nodes.to_set().contains(nodes[i]));
    }
    pool::lemma_returned_all_ok(w, nodes);
    let again = v.recycled().0;
    assert forall|p: u64| again.held.contains(p) <==> v.held.contains(p) by {
        assert(nodes.contains(p) <==> nodes.to_set().contains(p));
        if v.held.contains(p) && nodes.contains(p) {
            reveal(PoolView::ok);
            assert(v.hp.waits(p));
        }
    }
    assert(again.held =~= v.held);
    pool::lemma_popped_ok(again);
}

/// A pool grows only below its maximum, so it never owns more buffers than the
/// larger of its maximum and what it owned before.
pub proof fn pool_stays_below_its_maximum(v: PoolView, node: u64)
    requires
        v.allocated < v.alloc_max,
    ensures
        v.adopted(node).allocated <= v.alloc_max,
{
}

/// Between operations nothing is protected, so whatever waits for release can
/// be released; and a pool with no buffer to lend has lent all that it owns.
pub proof fn exhausted_pool_has_lent_everything(v: PoolView)
    requires
        v.ok(),
    ensures
        v.releasable() == v.waiting(),
        v.list.len() == 0 && v.releasable().len() == 0 ==> v.held.len() == v.allocated,
{
    reveal(PoolView::ok);
    assert forall|p: u64| v.hp.waits(p) implies !v.hp.protects(p) by {
        if v.hp.protects(p) {
            let (l, s) = choose|l: int, s: int| #[trigger] v.hp.publishes(l, s, p);
            assert(v.hp.slots[l][s] == 0);
            assert(v.fits(p));
        }
    }
    assert(v.releasable() =~= v.waiting());
}

/// What is released waits for release and nobody protects it.
pub proof fn only_unprotected_buffers_are_released(v: PoolView, word: u64, p: u64)
    requires
        v.ok(),
        v.held.contains(stack::node_of(word)),
        v.returned(word).1.contains(p),
    ensures
        v.retired_one(stack::node_of(word)).hp.waits(p),
        !v.hp.protects(p),
{
    let node = stack::node_of(word);
    let r = v.retired_one(node);
    pool::lemma_retired_one_ok(v, node);
    assert(r.waiting().finite()) by {
        reveal(PoolView::ok);
    }
    pool::lemma_waits_reclaimed(r);
    order::lemma_set_in_order(r.releasable());
    assert(order::in_order(r.releasable()).to_set().contains(p));
    assert(v.hp.retired.len() >= 1) by {
        reveal(PoolView::ok);
    }
    pool::lemma_waits_retired(v.hp, 0, node);
}

/// The word of a node after it has been returned `turns` times, starting from a
/// tag.
pub open spec fn word_after(node: u64, tag: u16, turns: nat) -> u64 {
    ptr::packed(node, ((tag + turns) % 0x1_0000) as u16)
}

/// A node that comes back does so under a word that it has not had for the last
/// 65535 times, so a head of the list that was read before does not pass for
/// the new one.
pub proof fn words_of_a_node_do_not_repeat_soon(node: u64, tag: u16, before: nat, now: nat)
    requires
        node < ptr::address_space(),
        before < now < before + 0x1_0000,
    ensures
        word_after(node, tag, before) != word_after(node, tag, now),
{
    let a = (tag + before) % 0x1_0000;
    let b = (tag + now) % 0x1_0000;
    assert(a != b);
    ptr::distinct_tags_make_distinct_words(node, a as u16, b as u16);
}

} // verus!

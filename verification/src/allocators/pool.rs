//! What a pool of buffers is, and how it changes.

use super::layout::Layout;
use super::stack;
use crate::num;
use crate::order;
use crate::ptr;
use crate::smr;
use crate::smr::hazard_ptrs::HazardView;
use vstd::arithmetic::div_mod::*;
use vstd::prelude::*;
use vstd::set_lib::*;

verus! {

/// The state of a pool. A buffer is known by the address of the node in front
/// of it.
#[verifier::ext_equal]
pub struct PoolView {
    /// The buffers for reuse as packed words, the next one last.
    pub list: Seq<u64>,
    /// The registry of hazard pointers, with the buffers that wait for release.
    pub hp: HazardView,
    /// How many buffers the pool owns.
    pub allocated: int,
    /// How many of them can be reused.
    pub in_list: int,
    /// How many of them wait for release.
    pub retired: int,
    /// The buffers on loan.
    pub held: Set<u64>,
    /// The layout of a buffer.
    pub layout: Layout,
    /// The layout of a node with its buffer.
    pub record: Layout,
    /// Where the buffer starts behind its node.
    pub offset: int,
    pub alloc_max: int,
    pub list_max: int,
    pub retired_max: int,
}

/// How nodes and buffers lie in memory.
pub struct Shape {
    /// The layout of a buffer.
    pub layout: Layout,
    /// The layout of a node with its buffer.
    pub record: Layout,
    /// Where the buffer starts behind its node.
    pub offset: int,
}

impl Shape {
    /// Whether a buffer that follows an aligned node is aligned, and ends where
    /// the record of the two ends.
    pub open spec fn sound(self) -> bool {
        &&& num::power_of_two(self.layout.align as int)
        &&& num::power_of_two(self.record.align as int)
        &&& self.record.align as int % self.layout.align as int == 0
        &&& self.offset % self.layout.align as int == 0
        &&& self.offset >= 1
        &&& self.record.size == self.offset + self.layout.size
    }

    /// Whether a node can be addressed together with its buffer, and is aligned.
    pub open spec fn fits(self, node: u64) -> bool {
        &&& node != 0
        &&& node + self.offset < ptr::address_space()
        &&& node as int % self.record.align as int == 0
    }

    /// Whether the records of two nodes share no byte.
    pub open spec fn apart(self, a: u64, b: u64) -> bool {
        a + self.record.size <= b || b + self.record.size <= a
    }

    /// Whether a buffer at this address satisfies the layout and is nobody
    /// else's: it is not null, it is aligned, and its bytes are part of no buffer
    /// on loan.
    pub open spec fn can_lend(self, held: Set<u64>, addr: int) -> bool {
        &&& addr != 0
        &&& addr % self.layout.align as int == 0
        &&& forall|p: u64| #[trigger]
            held.contains(p) ==> addr + self.layout.size <= p + self.offset || p + self.offset
                + self.layout.size <= addr
    }
}

/// Whether a registry is in order between operations: there are handles, all of
/// them are free, and no slot publishes anything.
pub open spec fn tidy(hp: HazardView) -> bool {
    &&& hp.slots.len() >= 1
    &&& hp.available.len() == hp.slots.len()
    &&& hp.retired.len() == hp.slots.len()
    &&& forall|l: int| 0 <= l < hp.available.len() ==> #[trigger] hp.available[l]
    &&& forall|l: int| 0 <= l < hp.slots.len() ==> (#[trigger] hp.slots[l]).len() >= 1
    &&& forall|l: int, s: int|
        0 <= l < hp.slots.len() && 0 <= s < hp.slots[l].len() ==> #[trigger] hp.slots[l][s] == 0
}

impl PoolView {
    /// How nodes and buffers lie in memory.
    pub open spec fn shape(self) -> Shape {
        Shape { layout: self.layout, record: self.record, offset: self.offset }
    }

    /// Whether a buffer that follows an aligned node is aligned, and ends where
    /// the record of the two ends.
    pub open spec fn shaped(self) -> bool {
        self.shape().sound()
    }

    /// Whether a node can be addressed together with its buffer, and is aligned.
    pub open spec fn fits(self, node: u64) -> bool {
        self.shape().fits(node)
    }

    /// Whether the records of two nodes share no byte.
    pub open spec fn apart(self, a: u64, b: u64) -> bool {
        self.shape().apart(a, b)
    }

    /// Whether the pool owns a buffer.
    pub open spec fn owns(self, node: u64) -> bool {
        self.held.contains(node) || self.keeps(node)
    }

    /// Whether no two buffers of the pool share a byte.
    pub open spec fn spread(self) -> bool {
        forall|a: u64, b: u64|
            #[trigger] self.owns(a) && #[trigger] self.owns(b) && a != b ==> self.apart(a, b)
    }

    /// Whether a buffer at this address satisfies the layout of the pool and is
    /// nobody else's: it is not null, it is aligned, and its bytes are part of
    /// no buffer on loan.
    pub open spec fn can_lend(self, addr: int) -> bool {
        self.shape().can_lend(self.held, addr)
    }

    /// The buffers that wait for release.
    pub open spec fn waiting(self) -> Set<u64> {
        Set::new(|p: u64| self.hp.waits(p))
    }

    /// The buffers that wait for release and that nobody protects.
    pub open spec fn releasable(self) -> Set<u64> {
        Set::new(|p: u64| self.hp.waits(p) && !self.hp.protects(p))
    }

    /// What always holds between operations: every buffer is in exactly one
    /// place, no two share a byte, the counters say how many are where, the list
    /// is not longer than it may be, and all handles are free.
    #[verifier::opaque]
    pub open spec fn ok(self) -> bool {
        &&& tidy(self.hp)
        &&& self.shaped()
        &&& self.spread()
        &&& self.list_max >= 1
        &&& stack::distinct(self.list)
        &&& self.in_list == self.list.len()
        &&& self.in_list <= self.list_max
        &&& self.waiting().finite()
        &&& self.retired == self.waiting().len()
        &&& self.held.finite()
        &&& self.allocated == self.in_list + self.retired + self.held.len()
        &&& forall|i: int|
            0 <= i < self.list.len() ==> {
                let node = stack::node_of(#[trigger] self.list[i]);
                self.fits(node) && !self.held.contains(node) && !self.hp.waits(node)
            }
        &&& forall|p: u64| #[trigger] self.hp.waits(p) ==> self.fits(p) && !self.held.contains(p)
        &&& forall|p: u64| #[trigger] self.held.contains(p) ==> self.fits(p)
    }

    /// The pool after everything that can be released has been.
    pub open spec fn deallocated(self) -> PoolView {
        let n = self.releasable().len();
        PoolView {
            hp: self.hp.reclaimed(),
            retired: self.retired - n,
            allocated: self.allocated - n,
            ..self
        }
    }

    /// The pool with a buffer retired that was on loan.
    pub open spec fn retired_one(self, node: u64) -> PoolView {
        PoolView {
            hp: self.hp.with_retired(0, node),
            retired: self.retired + 1,
            held: self.held.remove(node),
            ..self
        }
    }

    /// What happens when a buffer comes back: it is put on the list while that
    /// has room. Else it is retired, and once too many wait, those that can be
    /// are released. The new pool, and the buffers released in order.
    pub open spec fn returned(self, word: u64) -> (PoolView, Seq<u64>) {
        let node = stack::node_of(word);
        if self.in_list < self.list_max {
            (
                PoolView {
                    list: self.list.push(word),
                    in_list: self.in_list + 1,
                    held: self.held.remove(node),
                    ..self
                },
                Seq::empty(),
            )
        } else {
            let r = self.retired_one(node);
            if r.retired > self.retired_max {
                (r.deallocated(), order::in_order(r.releasable()))
            } else {
                (r, Seq::empty())
            }
        }
    }

    /// What happens when several buffers come back in turn, each with the tag
    /// of a first return.
    pub open spec fn returned_all(self, nodes: Seq<u64>) -> (PoolView, Seq<u64>)
        decreases nodes.len(),
    {
        if nodes.len() == 0 {
            (self, Seq::empty())
        } else {
            let (before, gone) = self.returned_all(nodes.drop_last());
            let (after, more) = before.returned(ptr::packed(nodes.last(), 1));
            (after, gone + more)
        }
    }

    /// The pool with everything that could be released taken back on loan.
    pub open spec fn recalled(self) -> PoolView {
        PoolView {
            hp: self.hp.reclaimed(),
            retired: self.retired - self.releasable().len(),
            held: self.held.union(self.releasable()),
            ..self
        }
    }

    /// What happens when a pool that may not grow uses the buffers that wait
    /// for release again: they come back in the order of their addresses.
    pub open spec fn recycled(self) -> (PoolView, Seq<u64>) {
        self.recalled().returned_all(order::in_order(self.releasable()))
    }

    /// The pool with the next buffer of the list on loan.
    pub open spec fn popped(self) -> PoolView {
        PoolView {
            list: self.list.drop_last(),
            in_list: self.in_list - 1,
            held: self.held.insert(stack::node_of(self.list.last())),
            ..self
        }
    }

    /// The pool with a new buffer, on loan.
    pub open spec fn adopted(self, node: u64) -> PoolView {
        PoolView { allocated: self.allocated + 1, held: self.held.insert(node), ..self }
    }

    /// Whether a buffer is in the list or waits for release.
    pub open spec fn keeps(self, node: u64) -> bool {
        stack::stacked(self.list, node) || self.hp.waits(node)
    }
}

/// A buffer on loan can be addressed.
pub proof fn lemma_held_fits(v: PoolView, node: u64)
    requires
        v.ok(),
        v.held.contains(node),
    ensures
        v.fits(node),
        v.offset >= 0,
{
    reveal(PoolView::ok);
}

/// A multiple of a multiple is a multiple.
proof fn lemma_multiple(a: int, b: int, d: int)
    requires
        b > 0,
        d > 0,
        a % b == 0,
        b % d == 0,
    ensures
        a % d == 0,
{
    lemma_fundamental_div_mod(a, b);
    lemma_fundamental_div_mod(b, d);
    let k = (a / b) * (b / d);
    assert(a == k * d) by (nonlinear_arith)
        requires
            a == b * (a / b),
            b == d * (b / d),
            k == (a / b) * (b / d),
    ;
    lemma_mod_multiples_basic(k, d);
}

/// A buffer behind a node that fits, and that is apart from all that are on
/// loan, can be lent.
pub proof fn lemma_can_lend(v: Shape, held: Set<u64>, node: u64)
    requires
        v.sound(),
        v.fits(node),
        forall|p: u64| #[trigger] held.contains(p) ==> v.apart(node, p),
    ensures
        v.can_lend(held, node + v.offset),
{
    num::lemma_small_powers();
    let d = v.layout.align as int;
    lemma_multiple(node as int, v.record.align as int, d);
    lemma_fundamental_div_mod(node as int, d);
    lemma_fundamental_div_mod(v.offset, d);
    let k = node as int / d + v.offset / d;
    assert(node + v.offset == k * d) by (nonlinear_arith)
        requires
            node == d * (node as int / d),
            v.offset == d * (v.offset / d),
            k == node as int / d + v.offset / d,
    ;
    lemma_mod_multiples_basic(k, d);
    assert forall|p: u64| #[trigger] held.contains(p) implies node + v.offset + v.layout.size <= p
        + v.offset || p + v.offset + v.layout.size <= node + v.offset by {
        assert(v.apart(node, p));
    }
}

/// The next buffer of the list can be lent.
pub proof fn lemma_top_can_be_lent(v: PoolView)
    requires
        v.ok(),
        v.list.len() > 0,
    ensures
        v.can_lend(stack::node_of(v.list.last()) + v.offset),
{
    reveal(PoolView::ok);
    let node = stack::node_of(v.list.last());
    assert(v.list[v.list.len() - 1] == v.list.last());
    assert(v.owns(node));
    assert forall|p: u64| #[trigger] v.held.contains(p) implies v.apart(node, p) by {
        assert(v.owns(p));
    }
    lemma_can_lend(v.shape(), v.held, node);
}

/// A pool that owns nothing new keeps its buffers apart.
pub proof fn lemma_still_spread(v: PoolView, w: PoolView)
    requires
        v.spread(),
        w.record == v.record,
        forall|p: u64| #[trigger] w.owns(p) ==> v.owns(p),
    ensures
        w.spread(),
{
    assert forall|a: u64, b: u64|
        #[trigger] w.owns(a) && #[trigger] w.owns(b) && a != b implies w.apart(a, b) by {
        assert(v.owns(a) && v.owns(b));
        assert(v.apart(a, b));
    }
}

/// What waits after a pointer has been retired.
pub proof fn lemma_waits_retired(hp: HazardView, l: int, p: u64)
    requires
        0 <= l < hp.retired.len(),
    ensures
        forall|q: u64| #[trigger] hp.with_retired(l, p).waits(q) <==> hp.waits(q) || q == p,
        forall|q: u64| #[trigger] hp.with_retired(l, p).protects(q) <==> hp.protects(q),
        tidy(hp) ==> tidy(hp.with_retired(l, p)),
{
    let w = hp.with_retired(l, p);
    assert forall|q: u64| #[trigger] w.waits(q) <==> hp.waits(q) || q == p by {
        if w.waits(q) {
            let k = choose|k: int| 0 <= k < w.retired.len() && (#[trigger] w.retired[k]).contains(q);
            let i = choose|i: int| 0 <= i < w.retired[k].len() && w.retired[k][i] == q;
            if k != l {
                assert(hp.retired[k].contains(q));
            } else if i < hp.retired[l].len() {
                assert(hp.retired[l][i] == q);
                assert(hp.retired[l].contains(q));
            }
        }
        if hp.waits(q) {
            let k = choose|k: int|
                0 <= k < hp.retired.len() && (#[trigger] hp.retired[k]).contains(q);
            let i = choose|i: int| 0 <= i < hp.retired[k].len() && hp.retired[k][i] == q;
            assert(w.retired[k][i] == q);
            assert(w.retired[k].contains(q));
        }
        if q == p {
            assert(w.retired[l][hp.retired[l].len() as int] == p);
            assert(w.retired[l].contains(p));
        }
    }
    assert forall|q: u64| #[trigger] w.protects(q) <==> hp.protects(q) by {
        lemma_same_slots(hp, w, q);
    }
}

/// Protection depends on the slots alone.
proof fn lemma_same_slots(a: HazardView, b: HazardView, q: u64)
    requires
        a.slots == b.slots,
    ensures
        a.protects(q) <==> b.protects(q),
{
    if a.protects(q) {
        let (l, s) = choose|l: int, s: int| #[trigger] a.publishes(l, s, q);
        assert(b.publishes(l, s, q));
    }
    if b.protects(q) {
        let (l, s) = choose|l: int, s: int| #[trigger] b.publishes(l, s, q);
        assert(a.publishes(l, s, q));
    }
}

/// What waits after a reclamation: what is protected.
pub proof fn lemma_waits_reclaimed(v: PoolView)
    requires
        v.waiting().finite(),
    ensures
        forall|q: u64| #[trigger] v.hp.reclaimed().waits(q) <==> v.hp.waits(q) && v.hp.protects(q),
        forall|q: u64| #[trigger] v.hp.reclaimed().protects(q) <==> v.hp.protects(q),
        tidy(v.hp) ==> tidy(v.hp.reclaimed()),
        v.releasable().finite(),
        v.deallocated().waiting().finite(),
        v.waiting().len() == v.deallocated().waiting().len() + v.releasable().len(),
{
    let w = v.deallocated();
    assert forall|q: u64| #[trigger] w.hp.waits(q) <==> v.hp.waits(q) && v.hp.protects(q) by {
        smr::laws::protected_pointers_keep_waiting(v.hp, q);
    }
    assert forall|q: u64| #[trigger] w.hp.protects(q) <==> v.hp.protects(q) by {
        lemma_same_slots(v.hp, w.hp, q);
    }
    let stay = w.waiting();
    let go = v.releasable();
    assert(stay.subset_of(v.waiting()));
    assert(go.subset_of(v.waiting()));
    lemma_len_subset(stay, v.waiting());
    lemma_len_subset(go, v.waiting());
    assert(v.waiting() =~= stay.union(go));
    assert(stay.disjoint(go));
    lemma_set_disjoint_lens(stay, go);
}

/// Releasing keeps the books.
pub proof fn lemma_deallocated_ok(v: PoolView)
    requires
        v.ok(),
    ensures
        v.deallocated().ok(),
{
    reveal(PoolView::ok);
    lemma_waits_reclaimed(v);
    lemma_still_spread(v, v.deallocated());
}

/// Retiring a buffer on loan keeps the books.
pub proof fn lemma_retired_one_ok(v: PoolView, node: u64)
    requires
        v.ok(),
        v.held.contains(node),
    ensures
        v.retired_one(node).ok(),
{
    reveal(PoolView::ok);
    lemma_waits_retired(v.hp, 0, node);
    let w = v.retired_one(node);
    assert(w.waiting() =~= v.waiting().insert(node));
    assert(!v.waiting().contains(node));
    lemma_still_spread(v, w);
}

/// A buffer that comes back keeps the books.
pub proof fn lemma_returned_ok(v: PoolView, word: u64)
    requires
        v.ok(),
        v.held.contains(stack::node_of(word)),
    ensures
        v.returned(word).0.ok(),
        v.returned(word).0.hp.available == v.hp.available,
        v.returned(word).0.list.len() >= v.list.len(),
        v.in_list < v.list_max ==> v.returned(word).0.list.len() == v.list.len() + 1,
        v.returned(word).0.held == v.held.remove(stack::node_of(word)),
        v.returned(word).0.offset == v.offset,
        v.returned(word).0.layout == v.layout,
        v.returned(word).0.record == v.record,
        v.returned(word).0.list_max == v.list_max,
{
    reveal(PoolView::ok);
    let node = stack::node_of(word);
    let w = v.returned(word).0;
    if v.in_list < v.list_max {
        assert(w.waiting() =~= v.waiting());
        assert forall|i: int, j: int| 0 <= i < j < w.list.len() implies stack::node_of(
            #[trigger] w.list[i],
        ) != stack::node_of(#[trigger] w.list[j]) by {
            assert(w.list[i] == v.list[i]);
            if j < v.list.len() {
                assert(w.list[j] == v.list[j]);
            }
        }
        assert forall|i: int| 0 <= i < w.list.len() implies {
            let n = stack::node_of(#[trigger] w.list[i]);
            w.fits(n) && !w.held.contains(n) && !w.hp.waits(n)
        } by {
            if i < v.list.len() {
                assert(w.list[i] == v.list[i]);
            }
        }
        assert forall|p: u64| #[trigger] w.owns(p) implies v.owns(p) by {
            if stack::stacked(w.list, p) {
                let i = choose|i: int|
                    0 <= i < w.list.len() && stack::node_of(#[trigger] w.list[i]) == p;
                if i < v.list.len() {
                    assert(w.list[i] == v.list[i]);
                }
            }
        }
        lemma_still_spread(v, w);
    } else {
        lemma_retired_one_ok(v, node);
        lemma_deallocated_ok(v.retired_one(node));
    }
}

/// Several buffers that come back keep the books.
pub proof fn lemma_returned_all_ok(v: PoolView, nodes: Seq<u64>)
    requires
        v.ok(),
        nodes.no_duplicates(),
        forall|i: int| 0 <= i < nodes.len() ==> v.held.contains(#[trigger] nodes[i]),
    ensures
        v.returned_all(nodes).0.ok(),
        v.returned_all(nodes).0.hp.available == v.hp.available,
        nodes.len() > 0 ==> v.returned_all(nodes).0.list.len() >= 1,
        forall|p: u64| #[trigger]
            v.returned_all(nodes).0.held.contains(p) <==> v.held.contains(p) && !nodes.contains(p),
        v.returned_all(nodes).0.offset == v.offset,
        v.returned_all(nodes).0.layout == v.layout,
        v.returned_all(nodes).0.record == v.record,
        v.returned_all(nodes).0.list_max == v.list_max,
    decreases nodes.len(),
{
    reveal(PoolView::ok);
    if nodes.len() > 0 {
        let rest = nodes.drop_last();
        let p = nodes.last();
        assert(nodes[nodes.len() - 1] == p);
        assert forall|i: int| 0 <= i < rest.len() implies v.held.contains(#[trigger] rest[i]) by {
            assert(rest[i] == nodes[i]);
        }
        lemma_returned_all_ok(v, rest);
        let before = v.returned_all(rest).0;
        assert(!rest.contains(p)) by {
            if rest.contains(p) {
                let i = choose|i: int| 0 <= i < rest.len() && rest[i] == p;
                assert(nodes[i] == p);
            }
        }
        ptr::packed_keeps_address_and_tag(p, 1);
        lemma_returned_ok(before, ptr::packed(p, 1));
        assert forall|q: u64| #[trigger]
            v.returned_all(nodes).0.held.contains(q) <==> v.held.contains(q) && !nodes.contains(
                q,
            ) by {
            if nodes.contains(q) {
                let i = choose|i: int| 0 <= i < nodes.len() && nodes[i] == q;
                if i < rest.len() {
                    assert(rest[i] == q);
                }
            }
            if rest.contains(q) {
                let i = choose|i: int| 0 <= i < rest.len() && rest[i] == q;
                assert(nodes[i] == q);
            }
        }
    }
}

/// Taking everything that could be released back on loan keeps the books.
pub proof fn lemma_recalled_ok(v: PoolView)
    requires
        v.ok(),
    ensures
        v.recalled().ok(),
        v.recalled().hp.available == v.hp.available,
{
    reveal(PoolView::ok);
    lemma_waits_reclaimed(v);
    let w = v.recalled();
    assert(w.waiting() =~= v.deallocated().waiting());
    assert(v.held.disjoint(v.releasable()));
    lemma_set_disjoint_lens(v.held, v.releasable());
    lemma_still_spread(v, w);
}

/// Lending the next buffer of the list keeps the books.
pub proof fn lemma_popped_ok(v: PoolView)
    requires
        v.ok(),
        v.list.len() > 0,
    ensures
        v.popped().ok(),
        !v.held.contains(stack::node_of(v.list.last())),
        !v.popped().keeps(stack::node_of(v.list.last())),
{
    reveal(PoolView::ok);
    let w = v.popped();
    let node = stack::node_of(v.list.last());
    assert(v.list[v.list.len() - 1] == v.list.last());
    assert(w.waiting() =~= v.waiting());
    assert forall|i: int| 0 <= i < w.list.len() implies {
        let n = stack::node_of(#[trigger] w.list[i]);
        w.fits(n) && !w.held.contains(n) && !w.hp.waits(n)
    } by {
        assert(w.list[i] == v.list[i]);
    }
    assert forall|i: int, j: int| 0 <= i < j < w.list.len() implies stack::node_of(
        #[trigger] w.list[i],
    ) != stack::node_of(#[trigger] w.list[j]) by {
        assert(w.list[i] == v.list[i]);
        assert(w.list[j] == v.list[j]);
    }
    if stack::stacked(w.list, node) {
        let i = choose|i: int| 0 <= i < w.list.len() && stack::node_of(#[trigger] w.list[i]) == node;
        assert(w.list[i] == v.list[i]);
    }
    assert forall|p: u64| #[trigger] w.owns(p) implies v.owns(p) by {
        if stack::stacked(w.list, p) {
            let i = choose|i: int| 0 <= i < w.list.len() && stack::node_of(#[trigger] w.list[i]) == p;
            assert(w.list[i] == v.list[i]);
        }
        if p == node {
            assert(stack::stacked(v.list, p));
        }
    }
    lemma_still_spread(v, w);
}

/// Lending a new buffer keeps the books.
pub proof fn lemma_adopted_ok(v: PoolView, node: u64)
    requires
        v.ok(),
        v.fits(node),
        forall|p: u64| #[trigger] v.owns(p) ==> v.apart(node, p),
    ensures
        v.adopted(node).ok(),
        v.can_lend(node + v.offset),
{
    reveal(PoolView::ok);
    let w = v.adopted(node);
    assert(!v.owns(node)) by {
        if v.owns(node) {
            assert(v.apart(node, node));
        }
    }
    assert forall|p: u64| #[trigger] v.held.contains(p) implies v.apart(node, p) by {
        assert(v.owns(p));
    }
    lemma_can_lend(v.shape(), v.held, node);
    assert forall|a: u64, b: u64|
        #[trigger] w.owns(a) && #[trigger] w.owns(b) && a != b implies w.apart(a, b) by {
        assert(a == node || v.owns(a));
        assert(b == node || v.owns(b));
        assert(v.owns(a) ==> v.apart(node, a));
        assert(v.owns(b) ==> v.apart(node, b));
        assert(v.owns(a) && v.owns(b) ==> v.apart(a, b));
    }
    assert(w.waiting() =~= v.waiting());
    assert forall|i: int| 0 <= i < w.list.len() implies {
        let n = stack::node_of(#[trigger] w.list[i]);
        w.fits(n) && !w.held.contains(n) && !w.hp.waits(n)
    } by {
        assert(w.list[i] == v.list[i]);
    }
}

} // verus!

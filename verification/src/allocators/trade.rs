//! Any number of threads on one pool of buffers.
//!
//! A [`Trade`] is a pool together with all the requests and returns that are in
//! progress on it. Each of its steps is one access to what the threads share, so
//! what holds after every step holds however their calls overlap: a buffer that
//! is lent is nobody else's, and the counters account for all buffers.
//!
//! The stack, the hazard slots and the nodes that wait for release are those of
//! a [`Crowd`]; a thread uses the hazard slot of its own number.

use super::crowd;
use super::crowd::Crowd;
use super::pool;
use super::pool::Shape;
use super::stack;
use super::stack::{PopOp, PopStep, PushOp, PushStep};
use crate::num;
use crate::ptr;
use vstd::prelude::*;
use vstd::set_lib::*;

verus! {

/// What a thread that asks for a buffer does next.
#[derive(Clone, Copy, Debug, PartialEq, Eq, Structural)]
pub enum TakePhase {
    /// Goes on with its pop.
    Stack,
    /// Has popped a node: counts one less in the list.
    Popped { word: u64 },
    /// Found the list empty: reads how many buffers the pool owns.
    Room,
    /// May make the pool grow: gets memory for a buffer.
    Grow,
    /// Has made a buffer: counts one more.
    Made { word: u64 },
    /// Returns with its buffer.
    Ready { word: u64 },
    /// May not make the pool grow: looks for nodes that can be used again, then
    /// counts so many less that wait.
    Search,
    /// Puts the nodes that it has found back, one after the other, then starts
    /// over.
    Recycle,
}

/// What a thread that returns a buffer does next.
#[derive(Clone, Copy, Debug, PartialEq, Eq, Structural)]
pub enum GivePhase {
    /// Reads how many nodes are in the list.
    Full { word: u64 },
    /// Goes on with its push.
    Stack { word: u64 },
    /// Has pushed its node: counts one more in the list, and returns.
    Pushed,
    /// The list is full: retires its node.
    Retiring { word: u64 },
    /// Has retired its node: counts one more that waits.
    Retired,
    /// Too many wait: looks for nodes that can be released, then counts so many
    /// less that wait.
    Search,
    /// Counts so many buffers less.
    WriteOff,
    /// Gives the memory back, one node after the other, then returns.
    Free,
}

/// A thread, and which of its calls.
pub enum Hand {
    Take(int),
    Give(int),
}

/// Where a node is.
pub enum Place {
    /// On the stack.
    Listed,
    /// On loan.
    Lent,
    /// With a call: popped, made, or about to be put back.
    InHand(Hand),
    /// Waiting for release.
    Waiting,
    /// Found by a call; still counted as waiting.
    Found(Hand),
    /// Found by a call, and no longer counted as waiting.
    Settled(Hand),
    /// Found by a call, and no longer counted at all.
    Off(Hand),
}

/// A pool and the calls in progress on it.
pub struct Trade {
    pub crowd: Crowd,
    pub shape: Shape,
    /// The threads there are.
    pub threads: Set<int>,
    /// Where every node of the pool is.
    pub place: Map<u64, Place>,
    /// The requests in progress, by thread.
    pub takes: Map<int, TakePhase>,
    /// The returns in progress, by thread.
    pub gives: Map<int, GivePhase>,
    pub allocated: usize,
    pub in_list: usize,
    pub retired: usize,
    pub alloc_max: usize,
    pub list_max: usize,
    pub retired_max: usize,
}

/// The node that a request has in hand.
pub open spec fn take_node(p: TakePhase) -> Option<u64> {
    match p {
        TakePhase::Popped { word } => Some(stack::node_of(word)),
        TakePhase::Made { word } => Some(stack::node_of(word)),
        TakePhase::Ready { word } => Some(stack::node_of(word)),
        _ => None,
    }
}

/// The node that a return has in hand.
pub open spec fn give_node(p: GivePhase) -> Option<u64> {
    match p {
        GivePhase::Full { word } => Some(stack::node_of(word)),
        GivePhase::Stack { word } => Some(stack::node_of(word)),
        GivePhase::Retiring { word } => Some(stack::node_of(word)),
        _ => None,
    }
}

impl Trade {
    /// The buffers on loan, by their nodes.
    pub open spec fn lent(self) -> Set<u64> {
        self.place.dom().filter(|n: u64| self.place[n] == Place::Lent)
    }

    /// Whether a thread is in this phase of a request.
    pub open spec fn taking(self, who: int, p: TakePhase) -> bool {
        self.takes.dom().contains(who) && self.takes[who] == p
    }

    /// Whether a thread is in this phase of a return.
    pub open spec fn giving(self, who: int, p: GivePhase) -> bool {
        self.gives.dom().contains(who) && self.gives[who] == p
    }

    /// The node that a call has in hand.
    pub open spec fn hand_node(self, h: Hand) -> Option<u64> {
        match h {
            Hand::Take(w) => if self.takes.dom().contains(w) {
                take_node(self.takes[w])
            } else {
                None
            },
            Hand::Give(w) => if self.gives.dom().contains(w) {
                give_node(self.gives[w])
            } else {
                None
            },
        }
    }

    /// Whether a call may have nodes that it has found.
    pub open spec fn may_find(self, h: Hand) -> bool {
        match h {
            Hand::Take(w) => self.taking(w, TakePhase::Search),
            Hand::Give(w) => self.giving(w, GivePhase::Search),
        }
    }

    /// Whether a call may have nodes that it has found and that no longer count
    /// as waiting.
    pub open spec fn may_settle(self, h: Hand) -> bool {
        match h {
            Hand::Take(w) => self.taking(w, TakePhase::Recycle),
            Hand::Give(w) => self.giving(w, GivePhase::WriteOff),
        }
    }

    /// Whether a call may have nodes that no longer count.
    pub open spec fn may_free(self, h: Hand) -> bool {
        match h {
            Hand::Take(w) => false,
            Hand::Give(w) => self.giving(w, GivePhase::Free),
        }
    }

    /// Whether a node is with a call that may have it.
    pub open spec fn label_ok(self, n: u64) -> bool {
        match self.place[n] {
            Place::InHand(h) => self.hand_node(h) == Some(n),
            Place::Found(h) => self.may_find(h),
            Place::Settled(h) => self.may_settle(h),
            Place::Off(h) => self.may_free(h),
            _ => true,
        }
    }

    /// Whether a node is where it is said to be: only listed nodes are on the
    /// stack, and only those that wait or have been found are to be released;
    /// of those that have been found, nobody relies on any.
    pub open spec fn spot_ok(self, n: u64) -> bool {
        &&& self.shape.fits(n)
        &&& stack::stacked(self.crowd.list, n) <==> self.place[n] == Place::Listed
        &&& match self.place[n] {
            Place::Listed | Place::Lent | Place::InHand(_) => !self.crowd.doomed.dom().contains(n),
            Place::Waiting => self.crowd.doomed.dom().contains(n),
            _ => self.crowd.searched(n),
        }
    }

    /// Whether a thread does what its calls say.
    pub open spec fn thread_ok(self, w: int) -> bool {
        &&& self.takes.dom().contains(w) || self.gives.dom().contains(w)
            ==> self.threads.contains(w)
        &&& self.hand_node(Hand::Take(w)) matches Some(n) ==> self.place.dom().contains(n)
            && self.place[n] == Place::InHand(Hand::Take(w))
        &&& self.hand_node(Hand::Give(w)) matches Some(n) ==> self.place.dom().contains(n)
            && self.place[n] == Place::InHand(Hand::Give(w))
        &&& self.popping(w) <==> self.taking(w, TakePhase::Stack)
        &&& self.pushing(w) ==> self.giving(
            w,
            GivePhase::Stack { word: self.crowd.pushes[w].word },
        )
        &&& self.gives.dom().contains(w) && self.gives[w] is Stack ==> self.pushing(w)
    }

    /// Whether a thread has a pop in progress.
    pub open spec fn popping(self, w: int) -> bool {
        &&& self.crowd.pops.dom().contains(w)
        &&& self.crowd.pops[w].at != PopStep::Done
        &&& self.crowd.pops[w].at != PopStep::Empty
    }

    /// Whether a thread has a push in progress.
    pub open spec fn pushing(self, w: int) -> bool {
        self.crowd.pushes.dom().contains(w) && self.crowd.pushes[w].at != PushStep::Done
    }

    /// Every node is in one place, no two share a byte, and every call has what
    /// it says.
    pub open spec fn orderly(self) -> bool {
        &&& self.crowd.consistent()
        &&& self.shape.sound()
        &&& self.place.dom().finite()
        &&& self.threads.finite()
        &&& self.threads.subset_of(self.crowd.hazards.dom())
        &&& forall|n: u64| #[trigger]
            self.place.dom().contains(n) ==> self.spot_ok(n) && self.label_ok(n)
        &&& forall|n: u64| #[trigger]
            stack::stacked(self.crowd.list, n) ==> self.place.dom().contains(n)
        &&& forall|n: u64| #[trigger]
            self.crowd.doomed.dom().contains(n) ==> self.place.dom().contains(n)
        &&& forall|a: u64, b: u64|
            #![trigger self.place.dom().contains(a), self.place.dom().contains(b)]
            self.place.dom().contains(a) && self.place.dom().contains(b) && a != b
                ==> self.shape.apart(a, b)
        &&& forall|w: int| #[trigger] self.thread_ok(w)
    }

    /// The requests that have popped a node and not counted it yet.
    pub open spec fn popped(self) -> Set<int> {
        self.takes.dom().filter(|w: int| self.takes[w] is Popped)
    }

    /// The returns that have pushed a node and not counted it yet.
    pub open spec fn pushed(self) -> Set<int> {
        self.gives.dom().filter(|w: int| self.gives[w] is Pushed)
    }

    /// The returns that have retired a node and not counted it yet.
    pub open spec fn uncounted(self) -> Set<int> {
        self.gives.dom().filter(|w: int| self.gives[w] is Retired)
    }

    /// The requests that have made a buffer and not counted it yet.
    pub open spec fn made(self) -> Set<int> {
        self.takes.dom().filter(|w: int| self.takes[w] is Made)
    }

    /// The requests that make the pool grow.
    pub open spec fn growing(self) -> Set<int> {
        self.takes.dom().filter(|w: int| self.takes[w] is Grow || self.takes[w] is Made)
    }

    /// The nodes that count as waiting.
    pub open spec fn waiting(self) -> Set<u64> {
        self.place.dom().filter(
            |n: u64| self.place[n] == Place::Waiting || self.place[n] is Found,
        )
    }

    /// The nodes that no longer count.
    pub open spec fn off(self) -> Set<u64> {
        self.place.dom().filter(|n: u64| self.place[n] is Off)
    }

    /// Every counter is right but for the calls that have not counted yet, and
    /// the pool owns no more buffers than it may but for those of the requests
    /// that make it grow at the same time.
    pub open spec fn counted(self) -> bool {
        &&& self.takes.dom().finite()
        &&& self.gives.dom().finite()
        &&& self.alloc_max + self.threads.len() <= usize::MAX
        &&& self.in_list == num::wrap(
            self.crowd.list.len() + self.popped().len() - self.pushed().len(),
        )
        &&& self.retired == num::wrap(self.waiting().len() - self.uncounted().len())
        &&& self.allocated == self.place.dom().len() - self.off().len() - self.made().len()
        &&& self.allocated + self.growing().len() <= self.alloc_max + self.threads.len()
    }

    /// What holds at every moment.
    pub open spec fn consistent(self) -> bool {
        self.orderly() && self.counted()
    }

    /// The trade with a node moved.
    pub open spec fn moved(self, n: u64, to: Place) -> Trade {
        Trade { place: self.place.insert(n, to), ..self }
    }

    /// The trade with all nodes of one place moved to another.
    pub open spec fn relabelled(self, from: Place, to: Place) -> Trade {
        Trade {
            place: self.place.map_values(
                |p: Place|
                    if p == from {
                        to
                    } else {
                        p
                    },
            ),
            ..self
        }
    }

    /// The trade with a thread in another phase of its request.
    pub open spec fn take_at(self, who: int, p: TakePhase) -> Trade {
        Trade { takes: self.takes.insert(who, p), ..self }
    }

    /// The trade with a thread in another phase of its return.
    pub open spec fn give_at(self, who: int, p: GivePhase) -> Trade {
        Trade { gives: self.gives.insert(who, p), ..self }
    }

    /// The trade with another state of the stack and its slots.
    pub open spec fn with_crowd(self, crowd: Crowd) -> Trade {
        Trade { crowd, ..self }
    }
}

impl Trade {
    /// A thread begins to ask for a buffer.
    pub open spec fn start_take(self, who: int) -> Trade {
        self.with_crowd(self.crowd.start_pop(who)).take_at(who, TakePhase::Stack)
    }

    /// A slot publishes a node, or 0 for none.
    pub open spec fn publish(self, who: int, node: u64) -> Trade {
        self.with_crowd(self.crowd.publish(who, node))
    }

    /// A request goes on with its pop.
    pub open spec fn step_take(self, who: int) -> Trade {
        let crowd = self.crowd.step_pop(who);
        let op = crowd.pops[who];
        let t = self.with_crowd(crowd);
        if op.at == PopStep::Done {
            t.moved(stack::node_of(op.seen), Place::InHand(Hand::Take(who))).take_at(
                who,
                TakePhase::Popped { word: op.seen },
            )
        } else if op.at == PopStep::Empty {
            t.take_at(who, TakePhase::Room)
        } else {
            t
        }
    }

    /// The pop of a request has to start again, though the head has not changed.
    pub open spec fn retry_take(self, who: int) -> Trade {
        self.with_crowd(self.crowd.retry_pop(who))
    }

    /// A request counts one node less in the list.
    pub open spec fn count_popped(self, who: int) -> Trade {
        let t = Trade { in_list: num::wrap(self.in_list - 1), ..self };
        t.take_at(who, TakePhase::Ready { word: self.takes[who]->Popped_word })
    }

    /// A request that found the list empty reads how many buffers the pool owns.
    pub open spec fn read_allocated(self, who: int) -> Trade {
        if self.allocated < self.alloc_max {
            self.take_at(who, TakePhase::Grow)
        } else {
            self.take_at(who, TakePhase::Search)
        }
    }

    /// A request gets memory for a new buffer.
    pub open spec fn make(self, who: int, node: u64) -> Trade {
        self.moved(node, Place::InHand(Hand::Take(who))).take_at(
            who,
            TakePhase::Made { word: ptr::packed(node, 0) },
        )
    }

    /// A request counts the buffer that it has made.
    pub open spec fn count_made(self, who: int) -> Trade {
        let t = Trade { allocated: num::wrap(self.allocated + 1), ..self };
        t.take_at(who, TakePhase::Ready { word: self.takes[who]->Made_word })
    }

    /// A request returns with its buffer.
    pub open spec fn lend(self, who: int) -> Trade {
        let t = self.moved(stack::node_of(self.takes[who]->Ready_word), Place::Lent);
        Trade { takes: self.takes.remove(who), ..t }
    }

    /// A slot is looked at for a node that waits for release.
    pub open spec fn look(self, node: u64, slot: int) -> Trade {
        self.with_crowd(self.crowd.look(node, slot))
    }

    /// Every slot is looked at for every node that waits for release.
    pub open spec fn survey(self) -> Trade {
        self.with_crowd(self.crowd.survey())
    }

    /// A call finds a node on which nobody relies.
    pub open spec fn find(self, h: Hand, node: u64) -> Trade {
        self.moved(node, Place::Found(h))
    }

    /// The nodes that a call has found and that count as waiting.
    pub open spec fn found(self, h: Hand) -> Set<u64> {
        self.place.dom().filter(|n: u64| self.place[n] == Place::Found(h))
    }

    /// The nodes that a call has found and that no longer count as waiting.
    pub open spec fn settled(self, h: Hand) -> Set<u64> {
        self.place.dom().filter(|n: u64| self.place[n] == Place::Settled(h))
    }

    /// A request that has found nodes counts so many less that wait.
    pub open spec fn settle_take(self, who: int) -> Trade {
        let h = Hand::Take(who);
        let t = Trade { retired: num::wrap(self.retired - self.found(h).len()), ..self };
        t.relabelled(Place::Found(h), Place::Settled(h)).take_at(who, TakePhase::Recycle)
    }

    /// A request that has found nothing returns without a buffer.
    pub open spec fn give_up(self, who: int) -> Trade {
        Trade { takes: self.takes.remove(who), ..self }
    }

    /// A request begins to put back a node that it has found.
    pub open spec fn put_back(self, who: int, node: u64) -> Trade {
        self.with_crowd(self.crowd.recall(node)).moved(
            node,
            Place::InHand(Hand::Give(who)),
        ).give_at(who, GivePhase::Full { word: ptr::packed(node, 1) })
    }

    /// A request that has put back what it has found starts over.
    pub open spec fn start_over(self, who: int) -> Trade {
        self.start_take(who)
    }

    /// A thread begins to return a buffer, under the word that its node gets.
    pub open spec fn start_give(self, who: int, word: u64) -> Trade {
        self.moved(stack::node_of(word), Place::InHand(Hand::Give(who))).give_at(
            who,
            GivePhase::Full { word },
        )
    }

    /// A return reads how many nodes are in the list.
    pub open spec fn read_list(self, who: int) -> Trade {
        let word = self.gives[who]->Full_word;
        if self.in_list >= self.list_max {
            self.give_at(who, GivePhase::Retiring { word })
        } else {
            self.with_crowd(self.crowd.start_push(who, word)).give_at(
                who,
                GivePhase::Stack { word },
            )
        }
    }

    /// A return that cannot be carried out: the buffer is on loan again.
    pub open spec fn refuse(self, who: int) -> Trade {
        let t = self.moved(stack::node_of(self.gives[who]->Full_word), Place::Lent);
        Trade { gives: self.gives.remove(who), ..t }
    }

    /// A return goes on with its push.
    pub open spec fn step_give(self, who: int) -> Trade {
        let crowd = self.crowd.step_push(who);
        let op = crowd.pushes[who];
        let t = self.with_crowd(crowd);
        if op.at == PushStep::Done {
            t.moved(stack::node_of(op.word), Place::Listed).give_at(who, GivePhase::Pushed)
        } else {
            t
        }
    }

    /// The push of a return has to start again, though the head has not changed.
    pub open spec fn retry_give(self, who: int) -> Trade {
        self.with_crowd(self.crowd.retry_push(who))
    }

    /// A return counts one node more in the list, and is complete.
    pub open spec fn count_pushed(self, who: int) -> Trade {
        Trade {
            in_list: num::wrap(self.in_list + 1),
            gives: self.gives.remove(who),
            ..self
        }
    }

    /// A return retires its node.
    pub open spec fn retire(self, who: int) -> Trade {
        let node = stack::node_of(self.gives[who]->Retiring_word);
        self.with_crowd(self.crowd.retire(node)).moved(node, Place::Waiting).give_at(
            who,
            GivePhase::Retired,
        )
    }

    /// A return counts one node more that waits; if these are too many, it looks
    /// for nodes that can be released, else it is complete.
    pub open spec fn count_retired(self, who: int) -> Trade {
        let retired = num::wrap(self.retired + 1);
        let t = Trade { retired, ..self };
        if retired > self.retired_max {
            t.give_at(who, GivePhase::Search)
        } else {
            Trade { gives: self.gives.remove(who), ..t }
        }
    }

    /// A return that has found nodes counts so many less that wait.
    pub open spec fn settle_give(self, who: int) -> Trade {
        let h = Hand::Give(who);
        let t = Trade { retired: num::wrap(self.retired - self.found(h).len()), ..self };
        t.relabelled(Place::Found(h), Place::Settled(h)).give_at(who, GivePhase::WriteOff)
    }

    /// A return counts the nodes that it has found off.
    pub open spec fn write_off(self, who: int) -> Trade {
        let h = Hand::Give(who);
        let t = Trade { allocated: num::wrap(self.allocated - self.settled(h).len()), ..self };
        t.relabelled(Place::Settled(h), Place::Off(h)).give_at(who, GivePhase::Free)
    }

    /// A return gives the memory of a node back.
    pub open spec fn free(self, who: int, node: u64) -> Trade {
        let t = self.with_crowd(self.crowd.release(node));
        Trade { place: self.place.remove(node), ..t }
    }

    /// A return that has given all memory back is complete.
    pub open spec fn complete(self, who: int) -> Trade {
        Trade { gives: self.gives.remove(who), ..self }
    }
}

/// A step of one thread that moves at most one node keeps every node in one
/// place, if the node and the thread are right afterwards.
proof fn lemma_orderly(c: Trade, d: Trade, who: int, n0: u64)
    requires
        c.orderly(),
        d.crowd.consistent(),
        d.shape == c.shape,
        d.threads == c.threads,
        d.crowd.hazards.dom() == c.crowd.hazards.dom(),
        forall|n: u64|
            n != n0 ==> {
                &&& #[trigger] d.place.dom().contains(n) == c.place.dom().contains(n)
                &&& c.place.dom().contains(n) ==> d.place[n] == c.place[n]
            },
        forall|n: u64|
            n != n0 ==> #[trigger] stack::stacked(d.crowd.list, n) == stack::stacked(
                c.crowd.list,
                n,
            ),
        forall|n: u64|
            n != n0 ==> {
                &&& #[trigger] d.crowd.doomed.dom().contains(n) == c.crowd.doomed.dom().contains(n)
                &&& c.crowd.searched(n) ==> d.crowd.searched(n)
            },
        d.place.dom().contains(n0) ==> d.spot_ok(n0) && d.label_ok(n0) && (c.place.dom().contains(
            n0,
        ) || forall|n: u64| #[trigger] c.place.dom().contains(n) ==> c.shape.apart(n0, n)),
        stack::stacked(d.crowd.list, n0) ==> d.place.dom().contains(n0),
        d.crowd.doomed.dom().contains(n0) ==> d.place.dom().contains(n0),
        forall|w: int|
            w != who ==> {
                &&& d.takes.dom().contains(w) == c.takes.dom().contains(w)
                &&& c.takes.dom().contains(w) ==> d.takes[w] == c.takes[w]
                &&& d.gives.dom().contains(w) == c.gives.dom().contains(w)
                &&& c.gives.dom().contains(w) ==> d.gives[w] == c.gives[w]
                &&& d.popping(w) == c.popping(w)
                &&& d.pushing(w) == c.pushing(w)
                &&& #[trigger] c.thread_ok(w) && c.pushing(w) ==> d.crowd.pushes[w].word
                    == c.crowd.pushes[w].word
                &&& c.place.dom().contains(n0) ==> c.place[n0] != Place::InHand(Hand::Take(w))
                    && c.place[n0] != Place::InHand(Hand::Give(w))
            },
        d.thread_ok(who),
        forall|n: u64|
            n != n0 && #[trigger] c.place.dom().contains(n) && c.label_ok(n) ==> d.label_ok(n),
    ensures
        d.orderly(),
{
    assert(d.place.dom().finite()) by {
        if d.place.dom().contains(n0) {
            assert(d.place.dom().subset_of(c.place.dom().insert(n0)));
            lemma_set_subset_finite(c.place.dom().insert(n0), d.place.dom());
        } else {
            assert(d.place.dom().subset_of(c.place.dom()));
            lemma_set_subset_finite(c.place.dom(), d.place.dom());
        }
    }
    assert forall|n: u64| #[trigger] d.place.dom().contains(n) implies d.spot_ok(n) && d.label_ok(
        n,
    ) by {
        if n != n0 {
            assert(c.place.dom().contains(n));
            assert(c.spot_ok(n));
            assert(d.crowd.doomed.dom().contains(n) == c.crowd.doomed.dom().contains(n));
            assert(stack::stacked(d.crowd.list, n) == stack::stacked(c.crowd.list, n));
        }
    }
    assert forall|n: u64| #[trigger] stack::stacked(
        d.crowd.list,
        n,
    ) implies d.place.dom().contains(n) by {
        if n != n0 {
            assert(stack::stacked(c.crowd.list, n));
            assert(c.place.dom().contains(n));
        }
    }
    assert forall|n: u64| #[trigger] d.crowd.doomed.dom().contains(
        n,
    ) implies d.place.dom().contains(n) by {
        if n != n0 {
            assert(c.crowd.doomed.dom().contains(n));
            assert(c.place.dom().contains(n));
        }
    }
    assert forall|a: u64, b: u64|
        #![trigger d.place.dom().contains(a), d.place.dom().contains(b)]
        d.place.dom().contains(a) && d.place.dom().contains(b) && a != b implies d.shape.apart(
        a,
        b,
    ) by {
        assert(a != n0 ==> c.place.dom().contains(a));
        assert(b != n0 ==> c.place.dom().contains(b));
        if c.place.dom().contains(a) && c.place.dom().contains(b) {
            assert(c.shape.apart(a, b));
        }
    }
    assert forall|w: int| #[trigger] d.thread_ok(w) by {
        if w != who {
            assert(c.thread_ok(w));
            if let Some(n) = c.hand_node(Hand::Take(w)) {
                assert(d.place.dom().contains(n) == c.place.dom().contains(n));
            }
            if let Some(n) = c.hand_node(Hand::Give(w)) {
                assert(d.place.dom().contains(n) == c.place.dom().contains(n));
            }
        }
    }
}

/// Moving all nodes that a call has found on to the next stage keeps every node
/// in one place, if the call goes on to the phase that may have them.
proof fn lemma_relabelled_orderly(c: Trade, d: Trade, who: int, from: Place, to: Place)
    requires
        c.orderly(),
        d.crowd == c.crowd,
        d.shape == c.shape,
        d.threads == c.threads,
        d.place == c.relabelled(from, to).place,
        from is Found && to is Settled || from is Settled && to is Off,
        forall|w: int|
            w != who ==> {
                &&& d.takes.dom().contains(w) == c.takes.dom().contains(w)
                &&& c.takes.dom().contains(w) ==> d.takes[w] == c.takes[w]
                &&& d.gives.dom().contains(w) == c.gives.dom().contains(w)
                &&& #[trigger] c.thread_ok(w) && c.gives.dom().contains(w) ==> d.gives[w]
                    == c.gives[w]
            },
        d.thread_ok(who),
        forall|n: u64| #[trigger] c.place.dom().contains(n) && c.label_ok(n) ==> d.label_ok(n),
    ensures
        d.orderly(),
{
    assert(d.place.dom() =~= c.place.dom());
    assert forall|n: u64| #[trigger] d.place.dom().contains(n) implies d.spot_ok(n) && d.label_ok(
        n,
    ) by {
        assert(c.place.dom().contains(n));
        assert(c.spot_ok(n));
    }
    assert forall|w: int| #[trigger] d.thread_ok(w) by {
        if w != who {
            assert(c.thread_ok(w));
            if let Some(n) = c.hand_node(Hand::Take(w)) {
                assert(c.place.dom().contains(n));
            }
            if let Some(n) = c.hand_node(Hand::Give(w)) {
                assert(c.place.dom().contains(n));
            }
        }
    }
}

/// What taking the top off a stack leaves on it.
proof fn lemma_popped_list(list: Seq<u64>)
    requires
        list.len() > 0,
        stack::distinct(list),
    ensures
        !stack::stacked(list.drop_last(), stack::node_of(list.last())),
        stack::stacked(list, stack::node_of(list.last())),
        forall|n: u64|
            n != stack::node_of(list.last()) ==> #[trigger] stack::stacked(list.drop_last(), n)
                == stack::stacked(list, n),
{
    let rest = list.drop_last();
    let top = stack::node_of(list.last());
    assert(list[list.len() - 1] == list.last());
    if stack::stacked(rest, top) {
        let i = choose|i: int| 0 <= i < rest.len() && stack::node_of(#[trigger] rest[i]) == top;
        assert(rest[i] == list[i]);
    }
    assert forall|n: u64| n != top implies #[trigger] stack::stacked(rest, n) == stack::stacked(
        list,
        n,
    ) by {
        if stack::stacked(rest, n) {
            let i = choose|i: int| 0 <= i < rest.len() && stack::node_of(#[trigger] rest[i]) == n;
            assert(stack::node_of(list[i]) == n);
        }
        if stack::stacked(list, n) {
            let i = choose|i: int| 0 <= i < list.len() && stack::node_of(#[trigger] list[i]) == n;
            assert(stack::node_of(rest[i]) == n);
        }
    }
}

/// What a push leaves on a stack.
proof fn lemma_pushed_list(list: Seq<u64>, word: u64)
    ensures
        stack::stacked(list.push(word), stack::node_of(word)),
        forall|n: u64|
            n != stack::node_of(word) ==> #[trigger] stack::stacked(list.push(word), n)
                == stack::stacked(list, n),
{
    let more = list.push(word);
    assert(more[list.len() as int] == word);
    assert forall|n: u64| n != stack::node_of(word) implies #[trigger] stack::stacked(more, n)
        == stack::stacked(list, n) by {
        if stack::stacked(more, n) {
            let i = choose|i: int| 0 <= i < more.len() && stack::node_of(#[trigger] more[i]) == n;
            assert(stack::node_of(list[i]) == n);
        }
        if stack::stacked(list, n) {
            let i = choose|i: int| 0 <= i < list.len() && stack::node_of(#[trigger] list[i]) == n;
            assert(stack::node_of(more[i]) == n);
        }
    }
}

/// A thread with nothing else to do may ask for a buffer at any time.
pub proof fn start_take_keeps_consistent(c: Trade, who: int)
    requires
        c.consistent(),
        c.threads.contains(who),
        !c.takes.dom().contains(who),
    ensures
        c.start_take(who).consistent(),
        c.start_take(who).lent() == c.lent(),
{
    let d = c.start_take(who);
    assert(c.thread_ok(who));
    assert(c.crowd.idle(who));
    crowd::start_pop_keeps_consistent(c.crowd, who);
    lemma_orderly(c, d, who, 0);
    assert(d.popped() =~= c.popped());
    assert(d.made() =~= c.made());
    assert(d.growing() =~= c.growing());
    assert(d.waiting() =~= c.waiting());
    assert(d.off() =~= c.off());
    assert(d.lent() =~= c.lent());
}

/// A slot may publish whatever it likes while nothing is relied on through it.
pub proof fn publish_keeps_consistent(c: Trade, who: int, node: u64)
    requires
        c.consistent(),
        c.threads.contains(who),
        !c.crowd.relying(who),
    ensures
        c.publish(who, node).consistent(),
        c.publish(who, node).lent() == c.lent(),
{
    let d = c.publish(who, node);
    crowd::publish_keeps_consistent(c.crowd, who, node);
    assert(c.thread_ok(who));
    lemma_orderly(c, d, who, 0);
    assert(d.waiting() =~= c.waiting());
    assert(d.off() =~= c.off());
    assert(d.lent() =~= c.lent());
}

/// Every step of the pop of a request keeps the pool consistent; the node that
/// it takes off the stack was in the list and in no other hand. It has to
/// publish the node that it has seen before it looks at the head again.
pub proof fn step_take_keeps_consistent(c: Trade, who: int)
    requires
        c.consistent(),
        c.taking(who, TakePhase::Stack),
        c.crowd.pops[who].at == PopStep::Check ==> c.crowd.hazards[who] == stack::node_of(
            c.crowd.pops[who].seen,
        ),
    ensures
        c.step_take(who).consistent(),
        c.step_take(who).lent() == c.lent(),
        c.crowd.pops[who].at == PopStep::Read ==> c.crowd.words.links.dom().contains(
            stack::node_of(c.crowd.pops[who].seen),
        ),
{
    let d = c.step_take(who);
    assert(c.thread_ok(who));
    crowd::step_pop_keeps_consistent(c.crowd, who);
    let e = c.crowd.step_pop(who);
    let op = e.pops[who];
    if op.at == PopStep::Done {
        let node = stack::node_of(op.seen);
        assert(op.seen == c.crowd.list.last());
        lemma_popped_list(c.crowd.list);
        assert(c.place.dom().contains(node));
        lemma_orderly(c, d, who, node);
        assert(d.place.dom() =~= c.place.dom());
        assert(d.popped() =~= c.popped().insert(who));
    } else {
        lemma_orderly(c, d, who, 0);
        assert(d.popped() =~= c.popped());
    }
    assert(d.made() =~= c.made());
    assert(d.growing() =~= c.growing());
    assert(d.waiting() =~= c.waiting());
    assert(d.off() =~= c.off());
    assert(d.lent() =~= c.lent());
}

/// A pop that fails for no reason does no harm.
pub proof fn retry_take_keeps_consistent(c: Trade, who: int)
    requires
        c.consistent(),
        c.taking(who, TakePhase::Stack),
        c.crowd.pops[who].at == PopStep::Swap,
    ensures
        c.retry_take(who).consistent(),
        c.retry_take(who).lent() == c.lent(),
{
    let d = c.retry_take(who);
    assert(c.thread_ok(who));
    crowd::retry_keeps_consistent(c.crowd, who);
    lemma_orderly(c, d, who, 0);
    assert(d.waiting() =~= c.waiting());
    assert(d.off() =~= c.off());
    assert(d.lent() =~= c.lent());
}

/// A request that counts its node less is right afterwards.
pub proof fn count_popped_keeps_consistent(c: Trade, who: int)
    requires
        c.consistent(),
        c.takes.dom().contains(who),
        c.takes[who] is Popped,
    ensures
        c.count_popped(who).consistent(),
        c.count_popped(who).lent() == c.lent(),
{
    let d = c.count_popped(who);
    assert(c.thread_ok(who));
    lemma_orderly(c, d, who, 0);
    assert(d.takes.dom() =~= c.takes.dom());
    assert(c.popped().contains(who));
    assert(d.popped() =~= c.popped().remove(who));
    assert(d.made() =~= c.made());
    assert(d.growing() =~= c.growing());
    assert(d.waiting() =~= c.waiting());
    assert(d.off() =~= c.off());
    num::lemma_wrap_add(c.crowd.list.len() + c.popped().len() - c.pushed().len(), -1);
    assert(d.lent() =~= c.lent());
}

/// A request that reads how many buffers there are goes on to make the pool grow
/// only below its maximum.
pub proof fn read_allocated_keeps_consistent(c: Trade, who: int)
    requires
        c.consistent(),
        c.taking(who, TakePhase::Room),
    ensures
        c.read_allocated(who).consistent(),
        c.read_allocated(who).lent() == c.lent(),
{
    let d = c.read_allocated(who);
    assert(c.thread_ok(who));
    lemma_orderly(c, d, who, 0);
    assert(d.takes.dom() =~= c.takes.dom());
    assert(d.popped() =~= c.popped());
    assert(d.made() =~= c.made());
    assert(d.waiting() =~= c.waiting());
    assert(d.off() =~= c.off());
    if c.allocated < c.alloc_max {
        assert(d.growing() =~= c.growing().insert(who));
        assert(d.growing().subset_of(d.threads)) by {
            assert forall|w: int| d.growing().contains(w) implies d.threads.contains(w) by {
                assert(d.thread_ok(w));
            }
        }
        lemma_len_subset(d.growing(), d.threads);
    } else {
        assert(d.growing() =~= c.growing());
    }
    assert(d.lent() =~= c.lent());
}

/// A request may take in any memory of the right layout that is part of no
/// buffer of the pool.
pub proof fn make_keeps_consistent(c: Trade, who: int, node: u64)
    requires
        c.consistent(),
        c.taking(who, TakePhase::Grow),
        c.shape.fits(node),
        forall|n: u64| #[trigger] c.place.dom().contains(n) ==> c.shape.apart(node, n),
    ensures
        c.make(who, node).consistent(),
        c.make(who, node).lent() == c.lent(),
{
    let d = c.make(who, node);
    assert(c.thread_ok(who));
    ptr::packed_keeps_address_and_tag(node, 0);
    assert(!c.place.dom().contains(node)) by {
        if c.place.dom().contains(node) {
            assert(c.shape.apart(node, node));
        }
    }
    lemma_orderly(c, d, who, node);
    assert(d.takes.dom() =~= c.takes.dom());
    assert(d.place.dom() =~= c.place.dom().insert(node));
    assert(d.popped() =~= c.popped());
    assert(d.made() =~= c.made().insert(who));
    assert(d.growing() =~= c.growing());
    assert(d.waiting() =~= c.waiting());
    assert(d.off() =~= c.off());
    assert(d.lent() =~= c.lent());
}

/// A request that counts the buffer it has made is right afterwards.
pub proof fn count_made_keeps_consistent(c: Trade, who: int)
    requires
        c.consistent(),
        c.takes.dom().contains(who),
        c.takes[who] is Made,
    ensures
        c.count_made(who).consistent(),
        c.count_made(who).lent() == c.lent(),
        c.count_made(who).allocated == c.allocated + 1,
{
    let d = c.count_made(who);
    assert(c.thread_ok(who));
    lemma_orderly(c, d, who, 0);
    assert(d.takes.dom() =~= c.takes.dom());
    assert(c.made().contains(who));
    assert(c.growing().contains(who));
    assert(d.popped() =~= c.popped());
    assert(d.made() =~= c.made().remove(who));
    assert(d.growing() =~= c.growing().remove(who));
    assert(d.waiting() =~= c.waiting());
    assert(d.off() =~= c.off());
    assert(c.growing().len() >= 1);
    num::lemma_word_count();
    num::lemma_wrap(c.allocated + 1);
    assert(d.lent() =~= c.lent());
}

/// A buffer that is lent satisfies the layout of the pool and is nobody else's,
/// however the calls of the threads overlap: it is not null, it is aligned, it
/// was not on loan, and its bytes are part of no buffer on loan.
pub proof fn lent_buffer_is_nobody_elses(c: Trade, who: int)
    requires
        c.consistent(),
        c.takes.dom().contains(who),
        c.takes[who] is Ready,
    ensures
        c.lend(who).consistent(),
        ({
            let node = stack::node_of(c.takes[who]->Ready_word);
            &&& c.shape.can_lend(c.lent(), node + c.shape.offset)
            &&& !c.lent().contains(node)
            &&& c.lend(who).lent() == c.lent().insert(node)
        }),
{
    let d = c.lend(who);
    let node = stack::node_of(c.takes[who]->Ready_word);
    assert(c.thread_ok(who));
    assert(c.hand_node(Hand::Take(who)) == Some(node));
    assert(c.spot_ok(node));
    lemma_orderly(c, d, who, node);
    assert(d.takes.dom() =~= c.takes.dom().remove(who));
    assert(d.place.dom() =~= c.place.dom());
    assert(d.popped() =~= c.popped());
    assert(d.made() =~= c.made());
    assert(d.growing() =~= c.growing());
    assert(d.waiting() =~= c.waiting());
    assert(d.off() =~= c.off());
    assert(d.lent() =~= c.lent().insert(node));
    assert forall|p: u64| #[trigger] c.lent().contains(p) implies c.shape.apart(node, p) by {
        assert(c.place.dom().contains(p));
        assert(c.place.dom().contains(node));
    }
    pool::lemma_can_lend(c.shape, c.lent(), node);
}

/// Looking at a slot for a node that waits disturbs nothing.
pub proof fn look_keeps_consistent(c: Trade, node: u64, slot: int)
    requires
        c.consistent(),
        c.place.dom().contains(node),
        c.place[node] == Place::Waiting,
        c.crowd.hazards.dom().contains(slot),
    ensures
        c.look(node, slot).consistent(),
        c.look(node, slot).lent() == c.lent(),
{
    let d = c.look(node, slot);
    assert(c.spot_ok(node));
    crowd::retiring_keeps_consistent(c.crowd, node, slot);
    assert forall|n: u64| n != node implies {
        &&& #[trigger] d.crowd.doomed.dom().contains(n) == c.crowd.doomed.dom().contains(n)
        &&& c.crowd.searched(n) ==> d.crowd.searched(n)
    } by {
        if c.crowd.searched(n) {
            assert forall|id: int| #[trigger] d.crowd.hazards.dom().contains(
                id,
            ) implies d.crowd.doomed[n].contains(id) by {
                assert(c.crowd.hazards.dom().contains(id));
            }
        }
    }
    assert(c.thread_ok(0));
    lemma_orderly(c, d, 0, node);
    assert(d.waiting() =~= c.waiting());
    assert(d.off() =~= c.off());
    assert(d.lent() =~= c.lent());
}

/// Looking at all slots for all nodes that wait disturbs nothing.
pub proof fn survey_keeps_consistent(c: Trade)
    requires
        c.consistent(),
    ensures
        c.survey().consistent(),
        c.survey().lent() == c.lent(),
{
    let d = c.survey();
    crowd::survey_keeps_consistent(c.crowd);
    assert forall|n: u64| #[trigger] d.crowd.doomed.dom().contains(n)
        == c.crowd.doomed.dom().contains(n) && (c.crowd.searched(n) ==> d.crowd.searched(n)) by {
        if c.crowd.searched(n) {
            assert forall|id: int| #[trigger] d.crowd.hazards.dom().contains(
                id,
            ) implies d.crowd.doomed[n].contains(id) by {
                assert(c.crowd.hazards.dom().contains(id));
            }
        }
    }
    assert(c.thread_ok(0));
    if c.place.dom().contains(0) {
        assert(c.spot_ok(0));
    }
    lemma_orderly(c, d, 0, 0);
    assert(d.waiting() =~= c.waiting());
    assert(d.off() =~= c.off());
    assert(d.lent() =~= c.lent());
}

/// A call may have any node that waits and for which all slots have been looked
/// at.
pub proof fn find_keeps_consistent(c: Trade, h: Hand, node: u64)
    requires
        c.consistent(),
        c.may_find(h),
        c.place.dom().contains(node),
        c.place[node] == Place::Waiting,
        c.crowd.searched(node),
    ensures
        c.find(h, node).consistent(),
        c.find(h, node).lent() == c.lent(),
{
    let d = c.find(h, node);
    assert(c.spot_ok(node));
    assert(c.thread_ok(0));
    lemma_orderly(c, d, 0, node);
    assert(d.place.dom() =~= c.place.dom());
    assert(d.waiting() =~= c.waiting());
    assert(d.off() =~= c.off());
    assert(d.lent() =~= c.lent());
}

/// Counting the found nodes less leaves the right number of those that wait.
proof fn lemma_settled_count(c: Trade, d: Trade, h: Hand)
    requires
        c.orderly(),
        d.place == c.relabelled(Place::Found(h), Place::Settled(h)).place,
    ensures
        d.place.dom() == c.place.dom(),
        d.waiting().len() == c.waiting().len() - c.found(h).len(),
        d.off() == c.off(),
{
    assert(d.place.dom() =~= c.place.dom());
    assert(d.off() =~= c.off());
    assert(c.found(h).subset_of(c.waiting()));
    lemma_len_subset(c.found(h), c.waiting());
    assert(d.waiting() =~= c.waiting().difference(c.found(h)));
    assert(d.waiting().disjoint(c.found(h)));
    assert(c.waiting() =~= d.waiting().union(c.found(h)));
    lemma_set_disjoint_lens(d.waiting(), c.found(h));
}

/// A request may count what it has found less at any time.
pub proof fn settle_take_keeps_consistent(c: Trade, who: int)
    requires
        c.consistent(),
        c.taking(who, TakePhase::Search),
    ensures
        c.settle_take(who).consistent(),
        c.settle_take(who).lent() == c.lent(),
{
    let d = c.settle_take(who);
    let h = Hand::Take(who);
    assert(c.thread_ok(who));
    assert(d.thread_ok(who)) by {
        if let Some(n) = c.hand_node(Hand::Give(who)) {
            assert(c.place.dom().contains(n));
        }
    }
    lemma_relabelled_orderly(c, d, who, Place::Found(h), Place::Settled(h));
    lemma_settled_count(c, d, h);
    assert(d.takes.dom() =~= c.takes.dom());
    assert(d.popped() =~= c.popped());
    assert(d.made() =~= c.made());
    assert(d.growing() =~= c.growing());
    num::lemma_wrap_add(c.waiting().len() - c.uncounted().len(), -(c.found(h).len() as int));
    assert(d.lent() =~= c.lent());
}

/// A request that has found nothing may return without a buffer.
pub proof fn give_up_keeps_consistent(c: Trade, who: int)
    requires
        c.consistent(),
        c.taking(who, TakePhase::Search),
        c.found(Hand::Take(who)) == Set::<u64>::empty(),
    ensures
        c.give_up(who).consistent(),
        c.give_up(who).lent() == c.lent(),
{
    let d = c.give_up(who);
    assert(c.thread_ok(who));
    assert forall|n: u64| #[trigger] c.place.dom().contains(n) && c.label_ok(
        n,
    ) implies d.label_ok(n) by {
        assert(!c.found(Hand::Take(who)).contains(n));
    }
    lemma_orderly(c, d, who, 0);
    assert(d.takes.dom() =~= c.takes.dom().remove(who));
    assert(d.popped() =~= c.popped());
    assert(d.made() =~= c.made());
    assert(d.growing() =~= c.growing());
    assert(d.waiting() =~= c.waiting());
    assert(d.off() =~= c.off());
    assert(d.lent() =~= c.lent());
}

/// Taking a node off the ones to be released leaves the others as they are.
proof fn lemma_others_searched(c: Trade, d: Trade, node: u64)
    requires
        d.crowd.doomed == c.crowd.doomed.remove(node),
        d.crowd.hazards == c.crowd.hazards,
    ensures
        forall|n: u64|
            n != node ==> {
                &&& #[trigger] d.crowd.doomed.dom().contains(n) == c.crowd.doomed.dom().contains(n)
                &&& c.crowd.searched(n) ==> d.crowd.searched(n)
            },
        !d.crowd.doomed.dom().contains(node),
{
    assert forall|n: u64| n != node implies {
        &&& #[trigger] d.crowd.doomed.dom().contains(n) == c.crowd.doomed.dom().contains(n)
        &&& c.crowd.searched(n) ==> d.crowd.searched(n)
    } by {
        if c.crowd.searched(n) {
            assert forall|id: int| #[trigger] d.crowd.hazards.dom().contains(
                id,
            ) implies d.crowd.doomed[n].contains(id) by {
                assert(c.crowd.hazards.dom().contains(id));
            }
        }
    }
}

/// A request may put back what it has found.
pub proof fn put_back_keeps_consistent(c: Trade, who: int, node: u64)
    requires
        c.consistent(),
        c.taking(who, TakePhase::Recycle),
        !c.gives.dom().contains(who),
        c.place.dom().contains(node),
        c.place[node] == Place::Settled(Hand::Take(who)),
    ensures
        c.put_back(who, node).consistent(),
        c.put_back(who, node).lent() == c.lent(),
{
    let d = c.put_back(who, node);
    assert(c.thread_ok(who));
    assert(c.spot_ok(node));
    crowd::release_keeps_consistent(c.crowd, node);
    ptr::packed_keeps_address_and_tag(node, 1);
    lemma_others_searched(c, d, node);
    lemma_orderly(c, d, who, node);
    assert(d.gives.dom() =~= c.gives.dom().insert(who));
    assert(d.place.dom() =~= c.place.dom());
    assert(d.pushed() =~= c.pushed());
    assert(d.uncounted() =~= c.uncounted());
    assert(d.waiting() =~= c.waiting());
    assert(d.off() =~= c.off());
    assert(d.lent() =~= c.lent());
}

/// A request that has put back all that it has found may start over.
pub proof fn start_over_keeps_consistent(c: Trade, who: int)
    requires
        c.consistent(),
        c.taking(who, TakePhase::Recycle),
        c.settled(Hand::Take(who)) == Set::<u64>::empty(),
    ensures
        c.start_over(who).consistent(),
        c.start_over(who).lent() == c.lent(),
{
    let d = c.start_over(who);
    assert(c.thread_ok(who));
    assert(c.crowd.idle(who));
    crowd::start_pop_keeps_consistent(c.crowd, who);
    assert forall|n: u64| #[trigger] c.place.dom().contains(n) && c.label_ok(
        n,
    ) implies d.label_ok(n) by {
        assert(!c.settled(Hand::Take(who)).contains(n));
    }
    lemma_orderly(c, d, who, 0);
    assert(d.takes.dom() =~= c.takes.dom());
    assert(d.popped() =~= c.popped());
    assert(d.made() =~= c.made());
    assert(d.growing() =~= c.growing());
    assert(d.waiting() =~= c.waiting());
    assert(d.off() =~= c.off());
    assert(d.lent() =~= c.lent());
}

/// A thread with nothing else to do may return a buffer that is on loan.
pub proof fn start_give_keeps_consistent(c: Trade, who: int, word: u64)
    requires
        c.consistent(),
        c.threads.contains(who),
        !c.gives.dom().contains(who),
        c.lent().contains(stack::node_of(word)),
    ensures
        c.start_give(who, word).consistent(),
        c.start_give(who, word).lent() == c.lent().remove(stack::node_of(word)),
{
    let d = c.start_give(who, word);
    let node = stack::node_of(word);
    assert(c.thread_ok(who));
    assert(c.place.dom().contains(node));
    assert(c.spot_ok(node));
    lemma_orderly(c, d, who, node);
    assert(d.gives.dom() =~= c.gives.dom().insert(who));
    assert(d.place.dom() =~= c.place.dom());
    assert(d.pushed() =~= c.pushed());
    assert(d.uncounted() =~= c.uncounted());
    assert(d.waiting() =~= c.waiting());
    assert(d.off() =~= c.off());
    assert(d.lent() =~= c.lent().remove(node));
}

/// A node with a call is not on the stack, and nobody is putting it there.
proof fn lemma_in_hand_is_loose(c: Trade, who: int, node: u64)
    requires
        c.orderly(),
        c.hand_node(Hand::Give(who)) == Some(node),
        !c.pushing(who),
    ensures
        c.crowd.loose(node),
        c.place.dom().contains(node),
        c.place[node] == Place::InHand(Hand::Give(who)),
{
    assert(c.thread_ok(who));
    assert(c.spot_ok(node));
    assert forall|w: int|
        c.crowd.pushes.dom().contains(w) && (#[trigger] c.crowd.pushes[w]).at
            != PushStep::Done implies stack::node_of(c.crowd.pushes[w].word) != node by {
        assert(c.thread_ok(w));
        assert(c.pushing(w));
    }
}

/// The buffer of a return that cannot be carried out is on loan again.
pub proof fn refuse_keeps_consistent(c: Trade, who: int)
    requires
        c.consistent(),
        c.gives.dom().contains(who),
        c.gives[who] is Full,
    ensures
        c.refuse(who).consistent(),
        c.refuse(who).lent() == c.lent().insert(stack::node_of(c.gives[who]->Full_word)),
{
    let d = c.refuse(who);
    let node = stack::node_of(c.gives[who]->Full_word);
    assert(c.thread_ok(who));
    assert(c.hand_node(Hand::Give(who)) == Some(node));
    assert(c.spot_ok(node));
    lemma_orderly(c, d, who, node);
    assert(d.place.dom() =~= c.place.dom());
    assert(d.pushed() =~= c.pushed());
    assert(d.uncounted() =~= c.uncounted());
    assert(d.waiting() =~= c.waiting());
    assert(d.off() =~= c.off());
    assert(d.lent() =~= c.lent().insert(node));
}

/// A return that reads how many nodes are in the list goes on to put its node
/// there, or to retire it.
pub proof fn read_list_keeps_consistent(c: Trade, who: int)
    requires
        c.consistent(),
        c.gives.dom().contains(who),
        c.gives[who] is Full,
    ensures
        c.read_list(who).consistent(),
        c.read_list(who).lent() == c.lent(),
{
    let d = c.read_list(who);
    let word = c.gives[who]->Full_word;
    assert(c.thread_ok(who));
    lemma_in_hand_is_loose(c, who, stack::node_of(word));
    crowd::start_push_keeps_consistent(c.crowd, who, word);
    lemma_orderly(c, d, who, 0);
    assert(d.gives.dom() =~= c.gives.dom());
    assert(d.pushed() =~= c.pushed());
    assert(d.uncounted() =~= c.uncounted());
    assert(d.waiting() =~= c.waiting());
    assert(d.off() =~= c.off());
    assert(d.lent() =~= c.lent());
}

/// Every step of the push of a return keeps the pool consistent, unless the tag
/// of the node has come back to a value that a pop in progress has seen.
pub proof fn step_give_keeps_consistent(c: Trade, who: int)
    requires
        c.consistent(),
        c.gives.dom().contains(who),
        c.gives[who] is Stack,
        c.crowd.pushes[who].at == PushStep::Swap ==> c.crowd.unexpected(c.crowd.pushes[who].word),
    ensures
        c.step_give(who).consistent(),
        c.step_give(who).lent() == c.lent(),
{
    let d = c.step_give(who);
    assert(c.thread_ok(who));
    let op = c.crowd.pushes[who];
    let node = stack::node_of(op.word);
    assert(c.hand_node(Hand::Give(who)) == Some(node));
    assert(c.spot_ok(node));
    crowd::step_push_keeps_consistent(c.crowd, who);
    let e = c.crowd.step_push(who);
    if e.pushes[who].at == PushStep::Done {
        lemma_pushed_list(c.crowd.list, op.word);
        lemma_orderly(c, d, who, node);
        assert(d.gives.dom() =~= c.gives.dom());
        assert(d.place.dom() =~= c.place.dom());
        assert(d.pushed() =~= c.pushed().insert(who));
    } else {
        lemma_orderly(c, d, who, 0);
        assert(d.pushed() =~= c.pushed());
    }
    assert(d.uncounted() =~= c.uncounted());
    assert(d.waiting() =~= c.waiting());
    assert(d.off() =~= c.off());
    assert(d.lent() =~= c.lent());
}

/// A push that fails for no reason does no harm.
pub proof fn retry_give_keeps_consistent(c: Trade, who: int)
    requires
        c.consistent(),
        c.gives.dom().contains(who),
        c.gives[who] is Stack,
        c.crowd.pushes[who].at == PushStep::Swap,
    ensures
        c.retry_give(who).consistent(),
        c.retry_give(who).lent() == c.lent(),
{
    let d = c.retry_give(who);
    assert(c.thread_ok(who));
    crowd::retry_keeps_consistent(c.crowd, who);
    lemma_orderly(c, d, who, 0);
    assert(d.waiting() =~= c.waiting());
    assert(d.off() =~= c.off());
    assert(d.lent() =~= c.lent());
}

/// A return that counts its node in the list is complete.
pub proof fn count_pushed_keeps_consistent(c: Trade, who: int)
    requires
        c.consistent(),
        c.giving(who, GivePhase::Pushed),
    ensures
        c.count_pushed(who).consistent(),
        c.count_pushed(who).lent() == c.lent(),
{
    let d = c.count_pushed(who);
    assert(c.thread_ok(who));
    lemma_orderly(c, d, who, 0);
    assert(d.gives.dom() =~= c.gives.dom().remove(who));
    assert(c.pushed().contains(who));
    assert(d.pushed() =~= c.pushed().remove(who));
    assert(d.uncounted() =~= c.uncounted());
    assert(d.waiting() =~= c.waiting());
    assert(d.off() =~= c.off());
    num::lemma_wrap_add(c.crowd.list.len() + c.popped().len() - c.pushed().len(), 1);
    assert(d.lent() =~= c.lent());
}

/// A return may retire its node.
pub proof fn retire_keeps_consistent(c: Trade, who: int)
    requires
        c.consistent(),
        c.gives.dom().contains(who),
        c.gives[who] is Retiring,
    ensures
        c.retire(who).consistent(),
        c.retire(who).lent() == c.lent(),
{
    let d = c.retire(who);
    let node = stack::node_of(c.gives[who]->Retiring_word);
    assert(c.thread_ok(who));
    lemma_in_hand_is_loose(c, who, node);
    assert(c.spot_ok(node));
    crowd::retiring_keeps_consistent(c.crowd, node, 0);
    assert forall|n: u64| n != node implies {
        &&& #[trigger] d.crowd.doomed.dom().contains(n) == c.crowd.doomed.dom().contains(n)
        &&& c.crowd.searched(n) ==> d.crowd.searched(n)
    } by {
        if c.crowd.searched(n) {
            assert forall|id: int| #[trigger] d.crowd.hazards.dom().contains(
                id,
            ) implies d.crowd.doomed[n].contains(id) by {
                assert(c.crowd.hazards.dom().contains(id));
            }
        }
    }
    lemma_orderly(c, d, who, node);
    assert(d.gives.dom() =~= c.gives.dom());
    assert(d.place.dom() =~= c.place.dom());
    assert(d.pushed() =~= c.pushed());
    assert(d.uncounted() =~= c.uncounted().insert(who));
    assert(!c.waiting().contains(node));
    assert(d.waiting() =~= c.waiting().insert(node));
    assert(d.off() =~= c.off());
    assert(d.lent() =~= c.lent());
}

/// A return that counts the node it has retired is right afterwards.
pub proof fn count_retired_keeps_consistent(c: Trade, who: int)
    requires
        c.consistent(),
        c.giving(who, GivePhase::Retired),
    ensures
        c.count_retired(who).consistent(),
        c.count_retired(who).lent() == c.lent(),
{
    let d = c.count_retired(who);
    assert(c.thread_ok(who));
    lemma_orderly(c, d, who, 0);
    if d.gives.dom().contains(who) {
        assert(d.gives.dom() =~= c.gives.dom());
    } else {
        assert(d.gives.dom() =~= c.gives.dom().remove(who));
    }
    assert(c.uncounted().contains(who));
    assert(d.pushed() =~= c.pushed());
    assert(d.uncounted() =~= c.uncounted().remove(who));
    assert(d.waiting() =~= c.waiting());
    assert(d.off() =~= c.off());
    num::lemma_wrap_add(c.waiting().len() - c.uncounted().len(), 1);
    assert(d.lent() =~= c.lent());
}

/// A return may count what it has found less at any time.
pub proof fn settle_give_keeps_consistent(c: Trade, who: int)
    requires
        c.consistent(),
        c.giving(who, GivePhase::Search),
    ensures
        c.settle_give(who).consistent(),
        c.settle_give(who).lent() == c.lent(),
{
    let d = c.settle_give(who);
    let h = Hand::Give(who);
    assert(c.thread_ok(who));
    assert(d.thread_ok(who)) by {
        if let Some(n) = c.hand_node(Hand::Take(who)) {
            assert(c.place.dom().contains(n));
        }
    }
    lemma_relabelled_orderly(c, d, who, Place::Found(h), Place::Settled(h));
    lemma_settled_count(c, d, h);
    assert(d.gives.dom() =~= c.gives.dom());
    assert(d.pushed() =~= c.pushed());
    assert(d.uncounted() =~= c.uncounted());
    num::lemma_wrap_add(c.waiting().len() - c.uncounted().len(), -(c.found(h).len() as int));
    assert(d.lent() =~= c.lent());
}

/// A return that counts off what it has found is right afterwards.
pub proof fn write_off_keeps_consistent(c: Trade, who: int)
    requires
        c.consistent(),
        c.giving(who, GivePhase::WriteOff),
    ensures
        c.write_off(who).consistent(),
        c.write_off(who).lent() == c.lent(),
        c.write_off(who).allocated == c.allocated - c.settled(Hand::Give(who)).len(),
{
    let d = c.write_off(who);
    let h = Hand::Give(who);
    let gone = c.settled(h);
    assert(c.thread_ok(who));
    assert(d.thread_ok(who)) by {
        if let Some(n) = c.hand_node(Hand::Take(who)) {
            assert(c.place.dom().contains(n));
        }
    }
    lemma_relabelled_orderly(c, d, who, Place::Settled(h), Place::Off(h));
    assert(d.place.dom() =~= c.place.dom());
    assert(d.gives.dom() =~= c.gives.dom());
    assert(d.pushed() =~= c.pushed());
    assert(d.uncounted() =~= c.uncounted());
    assert(d.waiting() =~= c.waiting());
    assert(gone.subset_of(c.place.dom()));
    lemma_len_subset(gone, c.place.dom());
    lemma_len_subset(c.off(), c.place.dom());
    assert(c.off().disjoint(gone));
    assert(d.off() =~= c.off().union(gone));
    lemma_set_disjoint_lens(c.off(), gone);
    lemma_made_nodes(c, c.off().union(gone));
    num::lemma_word_count();
    num::lemma_wrap(c.allocated - gone.len());
    assert(d.lent() =~= c.lent());
}

/// The nodes that requests have made and not counted are others than those that
/// have been found, so there are at least as many nodes as both together.
proof fn lemma_made_nodes(c: Trade, found: Set<u64>)
    requires
        c.consistent(),
        found.subset_of(c.place.dom()),
        forall|n: u64| #[trigger] found.contains(n) ==> !(c.place[n] is InHand),
    ensures
        found.len() + c.made().len() <= c.place.dom().len(),
{
    let nodes = c.made().map(|w: int| take_node(c.takes[w])->0);
    let f = |w: int| take_node(c.takes[w])->0;
    assert forall|a: int, b: int|
        #![trigger f(a), f(b)]
        c.made().contains(a) && c.made().contains(b) && f(a) == f(b) implies a == b by {
        assert(c.thread_ok(a));
        assert(c.thread_ok(b));
    }
    lemma_map_size(c.made(), nodes, f);
    assert(nodes.subset_of(c.place.dom())) by {
        assert forall|n: u64| nodes.contains(n) implies c.place.dom().contains(n) by {
            let w = choose|w: int| c.made().contains(w) && f(w) == n;
            assert(c.thread_ok(w));
        }
    }
    assert(nodes.disjoint(found)) by {
        assert forall|n: u64| nodes.contains(n) implies !found.contains(n) by {
            let w = choose|w: int| c.made().contains(w) && f(w) == n;
            assert(c.thread_ok(w));
        }
    }
    lemma_len_subset(nodes, c.place.dom());
    lemma_len_subset(found, c.place.dom());
    lemma_set_disjoint_lens(nodes, found);
    assert(nodes.union(found).subset_of(c.place.dom()));
    lemma_len_subset(nodes.union(found), c.place.dom());
}

/// A return may give the memory of what it has counted off back: nobody relies
/// on it.
pub proof fn free_keeps_consistent(c: Trade, who: int, node: u64)
    requires
        c.consistent(),
        c.place.dom().contains(node),
        c.place[node] == Place::Off(Hand::Give(who)),
    ensures
        c.free(who, node).consistent(),
        c.free(who, node).lent() == c.lent(),
        forall|w: int| !#[trigger] c.crowd.relies(w, node),
{
    let d = c.free(who, node);
    assert(c.thread_ok(who));
    assert(c.spot_ok(node));
    assert(c.label_ok(node));
    crowd::release_keeps_consistent(c.crowd, node);
    lemma_others_searched(c, d, node);
    lemma_orderly(c, d, who, node);
    assert(d.place.dom() =~= c.place.dom().remove(node));
    assert(c.off().contains(node));
    assert(d.off() =~= c.off().remove(node));
    assert(d.waiting() =~= c.waiting());
    assert(d.lent() =~= c.lent());
}

/// A return that has given all memory back is complete.
pub proof fn complete_keeps_consistent(c: Trade, who: int)
    requires
        c.consistent(),
        c.giving(who, GivePhase::Free),
        forall|n: u64| #[trigger]
            c.place.dom().contains(n) ==> c.place[n] != Place::Off(Hand::Give(who)),
    ensures
        c.complete(who).consistent(),
        c.complete(who).lent() == c.lent(),
{
    let d = c.complete(who);
    assert(c.thread_ok(who));
    lemma_orderly(c, d, who, 0);
    assert(d.gives.dom() =~= c.gives.dom().remove(who));
    assert(d.pushed() =~= c.pushed());
    assert(d.uncounted() =~= c.uncounted());
    assert(d.waiting() =~= c.waiting());
    assert(d.off() =~= c.off());
    assert(d.lent() =~= c.lent());
}

/// A pool without buffers, on which nobody works, is consistent.
pub proof fn fresh_trade_is_consistent(c: Trade)
    requires
        c.shape.sound(),
        c.threads.finite(),
        c.alloc_max + c.threads.len() <= usize::MAX,
        c.crowd.words.head == 0,
        c.crowd.list == Seq::<u64>::empty(),
        c.crowd.pushes == Map::<int, PushOp>::empty(),
        c.crowd.pops == Map::<int, PopOp>::empty(),
        c.crowd.doomed == Map::<u64, Set<int>>::empty(),
        c.threads.subset_of(c.crowd.hazards.dom()),
        c.place == Map::<u64, Place>::empty(),
        c.takes == Map::<int, TakePhase>::empty(),
        c.gives == Map::<int, GivePhase>::empty(),
        c.allocated == 0,
        c.in_list == 0,
        c.retired == 0,
    ensures
        c.consistent(),
{
    crowd::quiet_stack_is_consistent(c.crowd.words, c.crowd.list, c.crowd.hazards);
    assert forall|w: int| #[trigger] c.thread_ok(w) by {}
    assert(c.popped() =~= Set::empty());
    assert(c.pushed() =~= Set::empty());
    assert(c.uncounted() =~= Set::empty());
    assert(c.made() =~= Set::empty());
    assert(c.growing() =~= Set::empty());
    assert(c.waiting() =~= Set::empty());
    assert(c.off() =~= Set::empty());
    num::lemma_wrap(0);
    num::lemma_word_count();
}

/// The pool owns at most as many buffers more than its maximum as there are
/// threads, however their calls overlap.
pub proof fn pool_exceeds_its_maximum_by_the_threads_at_most(c: Trade)
    requires
        c.consistent(),
    ensures
        c.allocated <= c.alloc_max + c.threads.len(),
{
}

/// Once no call is in progress the counters account for all buffers: each is
/// for reuse, waits for release or is on loan.
pub proof fn nothing_is_lost_when_quiet(c: Trade)
    requires
        c.consistent(),
        c.takes.dom() == Set::<int>::empty(),
        c.gives.dom() == Set::<int>::empty(),
    ensures
        c.in_list == c.crowd.list.len(),
        c.retired == c.waiting().len(),
        c.allocated == c.place.dom().len(),
        c.allocated == c.in_list + c.retired + c.lent().len(),
{
    let listed = c.place.dom().filter(|n: u64| c.place[n] == Place::Listed);
    let all = c.place.dom();
    assert(c.popped() =~= Set::empty());
    assert(c.pushed() =~= Set::empty());
    assert(c.uncounted() =~= Set::empty());
    assert(c.made() =~= Set::empty());
    assert(c.off() =~= Set::empty()) by {
        assert forall|n: u64| !c.off().contains(n) by {
            if c.place.dom().contains(n) {
                assert(c.label_ok(n));
            }
        }
    }
    let nodes = c.crowd.list.map_values(|w: u64| stack::node_of(w));
    assert(nodes.no_duplicates()) by {
        assert forall|i: int, j: int| 0 <= i < j < nodes.len() implies nodes[i] != nodes[j] by {
            assert(stack::node_of(c.crowd.list[i]) != stack::node_of(c.crowd.list[j]));
        }
    }
    nodes.unique_seq_to_set();
    assert(nodes.to_set() =~= listed) by {
        assert forall|n: u64| nodes.to_set().contains(n) <==> listed.contains(n) by {
            if nodes.to_set().contains(n) {
                let i = choose|i: int| 0 <= i < nodes.len() && nodes[i] == n;
                assert(stack::node_of(c.crowd.list[i]) == n);
                assert(stack::stacked(c.crowd.list, n));
                assert(c.place.dom().contains(n));
                assert(c.spot_ok(n));
            }
            if listed.contains(n) {
                assert(c.spot_ok(n));
                let i = choose|i: int|
                    0 <= i < c.crowd.list.len() && stack::node_of(#[trigger] c.crowd.list[i]) == n;
                assert(nodes[i] == n);
            }
        }
    }
    assert(all =~= listed.union(c.waiting()).union(c.lent())) by {
        assert forall|n: u64| all.contains(n) implies listed.contains(n) || c.waiting().contains(n)
            || c.lent().contains(n) by {
            assert(c.label_ok(n));
        }
    }
    lemma_len_subset(listed, all);
    lemma_len_subset(c.waiting(), all);
    lemma_len_subset(c.lent(), all);
    lemma_set_disjoint_lens(listed, c.waiting());
    lemma_set_disjoint_lens(listed.union(c.waiting()), c.lent());
    num::lemma_word_count();
    num::lemma_wrap(c.crowd.list.len() as int);
    num::lemma_wrap(c.waiting().len() as int);
}

} // verus!

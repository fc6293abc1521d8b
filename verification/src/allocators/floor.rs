//! The calls of any number of threads on one pool.
//!
//! A [`Floor`] is what the threads on a pool share, together with the requests
//! and returns that are in progress ([`TakeState`], [`GiveState`]). Its steps
//! are theirs, one access each and in any order. Alongside runs a [`Trade`],
//! which says where every node is. As long as the two agree, what holds of the
//! trade holds of the calls; the module `agreement` shows that they do after
//! every step.

use super::calls;
use super::calls::{GiveAt, GiveState, PoolState, TakeAt, TakeState};
use super::crowd::Crowd;
use super::pool::Shape;
use super::stack;
use super::stack::{PopOp, PopStep, PushOp, PushStep, StackView};
use super::trade::{GivePhase, Hand, Place, TakePhase, Trade};
use crate::ptr;
use crate::smr::reclaim::{ReclaimAt, ReclaimState};
use vstd::prelude::*;

verus! {

/// Where the registry keeps a node that waits for release.
pub enum Spot {
    /// In the retirement list of a handle.
    Retired(int),
    /// In the list that the search of a call works on.
    Taken(Hand),
}

/// A pool and the calls in progress on it.
pub struct Floor {
    pub pool: PoolState,
    /// The requests, by thread.
    pub takes: Map<int, TakeState>,
    /// The returns, by thread.
    pub gives: Map<int, GiveState>,
    /// Which call has which handle.
    pub owner: Map<int, Hand>,
    /// Where the nodes are that wait for release.
    pub stored: Map<u64, Spot>,
    pub trade: Trade,
}

/// The phase that a request is in.
pub open spec fn take_phase(op: TakeState) -> Option<TakePhase> {
    match op.at {
        TakeAt::Pop | TakeAt::Publish | TakeAt::Withdraw => Some(TakePhase::Stack),
        TakeAt::Count => Some(TakePhase::Popped { word: op.pop.seen }),
        TakeAt::Clear | TakeAt::Leave => Some(TakePhase::Ready { word: op.pop.seen }),
        TakeAt::Room => Some(TakePhase::Room),
        TakeAt::LeaveToGrow | TakeAt::Grow => Some(TakePhase::Grow),
        TakeAt::Made { word } => Some(TakePhase::Made { word }),
        TakeAt::Search | TakeAt::Settle => Some(TakePhase::Search),
        TakeAt::Recycle => Some(TakePhase::Recycle),
        TakeAt::Ready { word } => Some(TakePhase::Ready { word }),
        TakeAt::Acquire | TakeAt::LeaveEmpty | TakeAt::Refused => None,
    }
}

/// The phase that a return is in.
pub open spec fn give_phase(op: GiveState) -> Option<GivePhase> {
    match op.at {
        GiveAt::Acquire | GiveAt::Full | GiveAt::Refused => Some(GivePhase::Full { word: op.word }),
        GiveAt::Push | GiveAt::Publish | GiveAt::Withdraw => Some(
            GivePhase::Stack { word: op.word },
        ),
        GiveAt::Count => Some(GivePhase::Pushed),
        GiveAt::PublishOwn | GiveAt::Retire => Some(GivePhase::Retiring { word: op.word }),
        GiveAt::ClearOwn | GiveAt::LeaveOwn | GiveAt::CountRetired => Some(GivePhase::Retired),
        GiveAt::Search | GiveAt::Settle => Some(GivePhase::Search),
        GiveAt::WriteOff => Some(GivePhase::WriteOff),
        GiveAt::Free => Some(GivePhase::Free),
        GiveAt::Clear | GiveAt::Leave | GiveAt::Done => None,
    }
}

impl Floor {
    /// Whether a call is in progress.
    pub open spec fn has(self, h: Hand) -> bool {
        match h {
            Hand::Take(w) => self.takes.dom().contains(w),
            Hand::Give(w) => self.gives.dom().contains(w),
        }
    }

    /// Whether a call has a handle.
    pub open spec fn holds(self, h: Hand) -> bool {
        self.has(h) && match h {
            Hand::Take(w) => self.takes[w].holds(),
            Hand::Give(w) => self.gives[w].holds(),
        }
    }

    /// The handle that a call has.
    pub open spec fn local(self, h: Hand) -> int {
        match h {
            Hand::Take(w) => self.takes[w].local,
            Hand::Give(w) => self.gives[w].local,
        }
    }

    /// What a call publishes.
    pub open spec fn shows(self, h: Hand) -> u64 {
        if !self.has(h) {
            0
        } else {
            match h {
                Hand::Take(w) => self.takes[w].shows(),
                Hand::Give(w) => self.gives[w].shows(),
            }
        }
    }

    /// Whether a call looks for nodes on which nobody relies.
    pub open spec fn seeks(self, h: Hand) -> bool {
        self.has(h) && match h {
            Hand::Take(w) => self.takes[w].at == TakeAt::Search,
            Hand::Give(w) => self.gives[w].at == GiveAt::Search,
        }
    }

    /// The search of a call.
    pub open spec fn search(self, h: Hand) -> ReclaimState {
        match h {
            Hand::Take(w) => self.takes[w].search,
            Hand::Give(w) => self.gives[w].search,
        }
    }

    /// The nodes that a call has found.
    pub open spec fn bag(self, h: Hand) -> Seq<u64> {
        if !self.has(h) {
            Seq::empty()
        } else {
            match h {
                Hand::Take(w) => match self.takes[w].at {
                    TakeAt::Search => self.takes[w].search.handed,
                    TakeAt::Settle | TakeAt::Recycle => self.takes[w].found,
                    _ => Seq::empty(),
                },
                Hand::Give(w) => match self.gives[w].at {
                    GiveAt::Search => self.gives[w].search.handed,
                    GiveAt::Settle | GiveAt::WriteOff | GiveAt::Free => self.gives[w].found,
                    _ => Seq::empty(),
                },
            }
        }
    }

    /// Where the nodes are that a call has found.
    pub open spec fn bag_place(self, h: Hand) -> Place {
        match h {
            Hand::Take(w) => if self.takes[w].at == TakeAt::Recycle {
                Place::Settled(h)
            } else {
                Place::Found(h)
            },
            Hand::Give(w) => match self.gives[w].at {
                GiveAt::WriteOff => Place::Settled(h),
                GiveAt::Free => Place::Off(h),
                _ => Place::Found(h),
            },
        }
    }

    /// Whether the trade is about the words and counters of this pool.
    pub open spec fn same_words(self) -> bool {
        let (p, t) = (self.pool, self.trade);
        &&& p.words == t.crowd.words
        &&& p.allocated == t.allocated
        &&& p.in_list == t.in_list
        &&& p.retired == t.retired
        &&& p.alloc_max == t.alloc_max
        &&& p.list_max == t.list_max
        &&& p.retired_max == t.retired_max
        &&& p.hp.available.len() == p.hp.slots.len()
        &&& p.hp.retired.len() == p.hp.slots.len()
        &&& t.crowd.hazards.dom() == t.threads
    }

    /// Whether a handle is in order: the call that has it knows, one that nobody
    /// has publishes nothing, and its retirement list holds what it should.
    pub open spec fn handle_ok(self, l: int) -> bool {
        let hp = self.pool.hp;
        &&& hp.slots[l].len() >= 1
        &&& self.owner.dom().contains(l) ==> !hp.available[l] && self.holds(self.owner[l])
            && self.local(self.owner[l]) == l
        &&& !self.owner.dom().contains(l) ==> hp.slots[l][0] == 0
        &&& self.kept_at(hp.retired[l], Spot::Retired(l))
    }

    /// Whether a list holds different nodes, and all of them are there.
    pub open spec fn kept_at(self, list: Seq<u64>, at: Spot) -> bool {
        &&& list.no_duplicates()
        &&& forall|i: int|
            0 <= i < list.len() ==> self.stored.dom().contains(#[trigger] list[i])
                && self.stored[list[i]] == at
    }

    /// Whether a search is in order: for the node in hand, every thread whose
    /// slot is still to be looked at has it ahead.
    pub open spec fn search_ok(self, h: Hand) -> bool {
        let s = self.search(h);
        &&& s.at != ReclaimAt::Done
        &&& 0 <= s.local <= self.pool.hp.slots.len()
        &&& s.busy() ==> s.taken.len() > 0 && s.local < self.pool.hp.slots.len()
        &&& s.at == ReclaimAt::Take ==> s.taken.len() == 0
        &&& self.kept_at(s.taken, Spot::Taken(h))
        &&& s.at == ReclaimAt::Look ==> {
            &&& 0 <= s.scan_local
            &&& 0 <= s.scan_slot
            &&& forall|w: int| #[trigger]
                self.trade.threads.contains(w) && !self.trade.crowd.doomed[s.in_hand()].contains(w)
                    ==> s.ahead(self.local(Hand::Take(w)), 0)
        }
    }

    /// Whether the nodes that a call has found are where they should be.
    pub open spec fn bag_ok(self, h: Hand) -> bool {
        let bag = self.bag(h);
        &&& bag.no_duplicates()
        &&& forall|i: int|
            0 <= i < bag.len() ==> self.trade.place.dom().contains(#[trigger] bag[i])
                && self.trade.place[bag[i]] == self.bag_place(h)
    }

    /// Whether a call has what it says.
    pub open spec fn hand_ok(self, h: Hand) -> bool {
        &&& self.holds(h) ==> {
            &&& calls::handle_fits(self.local(h), self.shows(h), self.pool)
            &&& self.owner.dom().contains(self.local(h))
            &&& self.owner[self.local(h)] == h
        }
        &&& self.seeks(h) ==> self.search_ok(h)
        &&& self.bag_ok(h)
    }

    /// Whether the trade says of a request what it does.
    pub open spec fn take_ok(self, w: int) -> bool {
        let op = self.takes[w];
        let t = self.trade;
        &&& t.threads.contains(w) ==> t.crowd.hazards[w] == self.shows(Hand::Take(w))
        &&& t.takes.dom().contains(w) <==> self.takes.dom().contains(w) && take_phase(op) is Some
        &&& self.takes.dom().contains(w) ==> {
            &&& t.threads.contains(w)
            &&& take_phase(op) matches Some(p) ==> t.takes[w] == p
            &&& take_phase(op) == Some(TakePhase::Stack) ==> t.crowd.pops[w] == op.pop
            &&& op.at == TakeAt::Acquire ==> op.local >= 0 && op == (TakeState {
                local: op.local,
                ..TakeState::start()
            })
            &&& op.at == TakeAt::Publish ==> op.pop.at == PopStep::Check
            &&& op.at == TakeAt::Withdraw ==> op.pop.at == PopStep::Load
        }
    }

    /// Whether the trade says of a return what it does.
    pub open spec fn give_ok(self, w: int) -> bool {
        let op = self.gives[w];
        let t = self.trade;
        &&& t.gives.dom().contains(w) <==> self.gives.dom().contains(w) && give_phase(op) is Some
        &&& self.gives.dom().contains(w) ==> {
            &&& t.threads.contains(w)
            &&& op.at == GiveAt::Acquire ==> op.local >= 0
            &&& give_phase(op) matches Some(p) ==> t.gives[w] == p
            &&& op.at == GiveAt::Acquire || op.at == GiveAt::Full ==> op.push == (PushOp {
                word: op.word,
                seen: 0,
                at: PushStep::Load,
            })
            &&& give_phase(op) == Some(GivePhase::Stack { word: op.word })
                ==> t.crowd.pushes[w] == op.push
            &&& op.at == GiveAt::Publish ==> op.push.at == PushStep::Check
            &&& op.at == GiveAt::Withdraw ==> op.push.at == PushStep::Load
        }
    }

    /// Whether a call that is said to have found a node has it.
    pub open spec fn claimed(self, n: u64) -> bool {
        match self.trade.place[n] {
            Place::Found(h) | Place::Settled(h) | Place::Off(h) => self.bag(h).contains(n)
                && self.trade.place[n] == self.bag_place(h),
            _ => true,
        }
    }

    /// Whether a thread has been seen not to publish a node that waits for
    /// release, or publishes it now.
    pub open spec fn watched(self, n: u64, w: int) -> bool {
        self.trade.crowd.doomed[n].contains(w) || self.trade.crowd.hazards[w] == n
    }

    /// What holds after every step: the trade is consistent, and agrees with the
    /// pool and its calls.
    pub open spec fn agrees(self) -> bool {
        &&& self.trade.consistent()
        &&& self.same_words()
        &&& forall|l: int| 0 <= l < self.pool.hp.slots.len() ==> #[trigger] self.handle_ok(l)
        &&& forall|h: Hand| #[trigger] self.hand_ok(h)
        &&& forall|w: int| #[trigger] self.take_ok(w)
        &&& forall|w: int| #[trigger] self.give_ok(w)
        &&& forall|n: u64| #[trigger]
            self.stored.dom().contains(n) ==> self.trade.place.dom().contains(n)
                && self.trade.place[n] == Place::Waiting
        &&& forall|n: u64| self.trade.place.dom().contains(n) ==> #[trigger] self.claimed(n)
        &&& forall|n: u64, w: int|
            self.trade.crowd.doomed.dom().contains(n) && self.trade.threads.contains(w)
                ==> #[trigger] self.watched(n, w)
    }
}

impl Floor {
    /// The floor with a step of a search: where the registry keeps the nodes,
    /// and what the trade says of them.
    pub open spec fn sought(self, h: Hand) -> Floor {
        let s = self.search(h);
        let p = s.in_hand();
        match s.at {
            ReclaimAt::Take => if s.local < self.pool.hp.retired.len() {
                let list = self.pool.hp.retired[s.local];
                Floor {
                    stored: self.stored.union_prefer_right(
                        Map::new(|n: u64| list.contains(n), |n: u64| Spot::Taken(h)),
                    ),
                    ..self
                }
            } else {
                self
            },
            ReclaimAt::Look => if s.scan_local >= self.pool.hp.slots.len() {
                Floor { stored: self.stored.remove(p), trade: self.trade.find(h, p), ..self }
            } else {
                self
            },
            ReclaimAt::Back => Floor {
                stored: self.stored.insert(p, Spot::Retired(s.local)),
                ..self
            },
            ReclaimAt::Done => self,
        }
    }

    /// A thread begins to ask for a buffer.
    pub open spec fn start_take(self, w: int) -> Floor {
        Floor { takes: self.takes.insert(w, TakeState::start()), ..self }
    }

    /// One step of a request.
    pub open spec fn step_take(self, w: int) -> Floor {
        let op = self.takes[w];
        let (after, pool) = calls::take_next(op, self.pool);
        let f = Floor { pool, takes: self.takes.insert(w, after), ..self };
        let t = self.trade;
        match op.at {
            TakeAt::Acquire => if after.at == TakeAt::Pop {
                Floor {
                    owner: self.owner.insert(op.local, Hand::Take(w)),
                    trade: t.start_take(w),
                    ..f
                }
            } else {
                f
            },
            TakeAt::Pop => Floor { trade: t.step_take(w), ..f },
            TakeAt::Publish => Floor { trade: t.publish(w, stack::node_of(op.pop.seen)), ..f },
            TakeAt::Withdraw | TakeAt::Clear => Floor { trade: t.publish(w, 0).survey(), ..f },
            TakeAt::Count => Floor { trade: t.count_popped(w), ..f },
            TakeAt::Room => Floor { trade: t.read_allocated(w), ..f },
            TakeAt::Made { word } => Floor { trade: t.count_made(w), ..f },
            TakeAt::Leave | TakeAt::LeaveToGrow | TakeAt::LeaveEmpty => Floor {
                owner: self.owner.remove(op.local),
                ..f
            },
            TakeAt::Search => {
                let sought = self.sought(Hand::Take(w));
                Floor {
                    stored: sought.stored,
                    trade: if after.at == TakeAt::LeaveEmpty {
                        sought.trade.give_up(w)
                    } else {
                        sought.trade
                    },
                    ..f
                }
            },
            TakeAt::Settle => Floor { trade: t.settle_take(w), ..f },
            TakeAt::Recycle => if op.found.len() == 0 {
                Floor { trade: t.start_over(w), ..f }
            } else {
                f
            },
            TakeAt::Grow | TakeAt::Ready { .. } | TakeAt::Refused => f,
        }
    }

    /// The exchange of a request that was about to take its node fails, though
    /// the head has not changed.
    pub open spec fn retry_take(self, w: int) -> Floor {
        let op = self.takes[w];
        let pop = PopOp { at: PopStep::Load, ..op.pop };
        Floor {
            takes: self.takes.insert(w, TakeState { at: TakeAt::Withdraw, pop, ..op }),
            trade: self.trade.retry_take(w),
            ..self
        }
    }

    /// A request gets memory for a new buffer.
    pub open spec fn made(self, w: int, node: u64) -> Floor {
        Floor {
            takes: self.takes.insert(
                w,
                TakeState { at: TakeAt::Made { word: ptr::packed(node, 0) }, ..self.takes[w] },
            ),
            trade: self.trade.make(w, node),
            ..self
        }
    }

    /// A request returns: with its buffer, or without one.
    pub open spec fn end_take(self, w: int) -> Floor {
        let f = Floor { takes: self.takes.remove(w), ..self };
        if self.takes[w].at is Ready {
            Floor { trade: self.trade.lend(w), ..f }
        } else {
            f
        }
    }
}

impl Floor {
    /// A thread begins to return a buffer, under the word that its node gets.
    pub open spec fn start_give(self, w: int, word: u64) -> Floor {
        Floor {
            gives: self.gives.insert(w, GiveState::start(word)),
            trade: self.trade.start_give(w, word),
            ..self
        }
    }

    /// A request begins to put back the next node that it has found.
    pub open spec fn put_back(self, w: int) -> Floor {
        let op = self.takes[w];
        let node = op.found.first();
        Floor {
            takes: self.takes.insert(w, TakeState { found: op.found.drop_first(), ..op }),
            gives: self.gives.insert(w, GiveState::start(ptr::packed(node, 1))),
            trade: self.trade.put_back(w, node),
            ..self
        }
    }

    /// One step of a return.
    pub open spec fn step_give(self, w: int) -> Floor {
        let op = self.gives[w];
        let (after, pool) = calls::give_next(op, self.pool);
        let f = Floor { pool, gives: self.gives.insert(w, after), ..self };
        let t = self.trade;
        match op.at {
            GiveAt::Acquire => if after.at == GiveAt::Full {
                Floor { owner: self.owner.insert(op.local, Hand::Give(w)), ..f }
            } else {
                f
            },
            GiveAt::Full => Floor { trade: t.read_list(w), ..f },
            GiveAt::Push => Floor { trade: t.step_give(w), ..f },
            GiveAt::Count => Floor { trade: t.count_pushed(w), ..f },
            GiveAt::Leave | GiveAt::LeaveOwn => Floor { owner: self.owner.remove(op.local), ..f },
            GiveAt::Retire => Floor {
                stored: self.stored.insert(stack::node_of(op.word), Spot::Retired(op.local)),
                trade: t.retire(w).survey(),
                ..f
            },
            GiveAt::CountRetired => Floor { trade: t.count_retired(w), ..f },
            GiveAt::Search => {
                let sought = self.sought(Hand::Give(w));
                Floor { stored: sought.stored, trade: sought.trade, ..f }
            },
            GiveAt::Settle => Floor { trade: t.settle_give(w), ..f },
            GiveAt::WriteOff => Floor { trade: t.write_off(w), ..f },
            GiveAt::Free => if op.found.len() == 0 {
                Floor { trade: t.complete(w), ..f }
            } else {
                f
            },
            _ => f,
        }
    }

    /// The exchange of a return that was about to make its node the head fails,
    /// though the head has not changed.
    pub open spec fn retry_give(self, w: int) -> Floor {
        let op = self.gives[w];
        let push = PushOp { at: PushStep::Load, ..op.push };
        Floor {
            gives: self.gives.insert(w, GiveState { at: GiveAt::Withdraw, push, ..op }),
            trade: self.trade.retry_give(w),
            ..self
        }
    }

    /// A return gives the memory of the next node that it has found back.
    pub open spec fn free(self, w: int) -> Floor {
        let op = self.gives[w];
        let node = op.found.first();
        Floor {
            pool: PoolState {
                words: StackView {
                    links: self.pool.words.links.remove(node),
                    ..self.pool.words
                },
                ..self.pool
            },
            gives: self.gives.insert(w, GiveState { found: op.found.drop_first(), ..op }),
            trade: self.trade.free(w, node),
            ..self
        }
    }

    /// A return ends. One for which there was no handle leaves the buffer on
    /// loan; if a request wanted to put the node back, nobody will return it.
    pub open spec fn end_give(self, w: int) -> Floor {
        let f = Floor { gives: self.gives.remove(w), ..self };
        if self.gives[w].at == GiveAt::Refused {
            Floor { trade: self.trade.refuse(w), ..f }
        } else {
            f
        }
    }
}

/// What can happen on a pool next, each by the thread that does it.
pub enum Move {
    /// A request begins.
    StartTake(int),
    /// A request takes a step.
    StepTake(int),
    /// The exchange of a request fails for no reason.
    RetryTake(int),
    /// A request gets memory at this address.
    Made(int, u64),
    /// A request returns.
    EndTake(int),
    /// The return of a buffer begins, under this word.
    StartGive(int, u64),
    /// A request begins to put a node back.
    PutBack(int),
    /// A return takes a step.
    StepGive(int),
    /// The exchange of a return fails for no reason.
    RetryGive(int),
    /// A return gives memory back.
    Free(int),
    /// A return ends.
    EndGive(int),
}

impl Floor {
    /// Whether this can happen next. A thread has one request and one return in
    /// progress at most; memory that is got is part of no other buffer; only a
    /// buffer on loan is returned; and a tag has not come back to a value that a
    /// request has seen.
    pub open spec fn can(self, m: Move) -> bool {
        match m {
            Move::StartTake(w) => self.trade.threads.contains(w) && !self.takes.dom().contains(w),
            Move::StepTake(w) => self.takes.dom().contains(w),
            Move::RetryTake(w) => self.takes.dom().contains(w) && self.takes[w].at == TakeAt::Pop
                && self.takes[w].pop.at == PopStep::Swap,
            Move::Made(w, node) => {
                &&& self.takes.dom().contains(w)
                &&& self.takes[w].at == TakeAt::Grow
                &&& self.trade.shape.fits(node)
                &&& forall|n: u64| #[trigger]
                    self.trade.place.dom().contains(n) ==> self.trade.shape.apart(node, n)
            },
            Move::EndTake(w) => self.takes.dom().contains(w) && (self.takes[w].at is Ready
                || self.takes[w].at == TakeAt::Refused),
            Move::StartGive(w, word) => {
                &&& self.trade.threads.contains(w)
                &&& !self.gives.dom().contains(w)
                &&& self.trade.lent().contains(stack::node_of(word))
            },
            Move::PutBack(w) => {
                &&& self.takes.dom().contains(w)
                &&& self.takes[w].at == TakeAt::Recycle
                &&& self.takes[w].found.len() > 0
                &&& !self.gives.dom().contains(w)
            },
            Move::StepGive(w) => self.gives.dom().contains(w) && (self.gives[w].at == GiveAt::Push
                && self.gives[w].push.at == PushStep::Swap ==> self.trade.crowd.unexpected(
                self.gives[w].word,
            )),
            Move::RetryGive(w) => self.gives.dom().contains(w) && self.gives[w].at == GiveAt::Push
                && self.gives[w].push.at == PushStep::Swap,
            Move::Free(w) => self.gives.dom().contains(w) && self.gives[w].at == GiveAt::Free
                && self.gives[w].found.len() > 0,
            Move::EndGive(w) => self.gives.dom().contains(w) && (self.gives[w].at == GiveAt::Done
                || self.gives[w].at == GiveAt::Refused),
        }
    }

    /// The floor after this has happened.
    pub open spec fn after(self, m: Move) -> Floor {
        match m {
            Move::StartTake(w) => self.start_take(w),
            Move::StepTake(w) => self.step_take(w),
            Move::RetryTake(w) => self.retry_take(w),
            Move::Made(w, node) => self.made(w, node),
            Move::EndTake(w) => self.end_take(w),
            Move::StartGive(w, word) => self.start_give(w, word),
            Move::PutBack(w) => self.put_back(w),
            Move::StepGive(w) => self.step_give(w),
            Move::RetryGive(w) => self.retry_give(w),
            Move::Free(w) => self.free(w),
            Move::EndGive(w) => self.end_give(w),
        }
    }

    /// Whether a request returns with the buffer of this node.
    pub open spec fn hands_out(self, m: Move, node: u64) -> bool {
        m matches Move::EndTake(w) && self.takes[w].at matches TakeAt::Ready { word }
            && stack::node_of(word) == node
    }

    /// Whether a return of the buffer of this node ends without a handle.
    pub open spec fn refuses(self, m: Move, node: u64) -> bool {
        m matches Move::EndGive(w) && self.gives[w].at == GiveAt::Refused && stack::node_of(
            self.gives[w].word,
        ) == node
    }

    /// Whether the buffer of this node begins to be returned.
    pub open spec fn takes_back(self, m: Move, node: u64) -> bool {
        m matches Move::StartGive(w, word) && stack::node_of(word) == node
    }
}

/// Whether a floor goes through these states by these moves.
pub open spec fn is_run(floors: Seq<Floor>, moves: Seq<Move>) -> bool {
    &&& floors.len() == moves.len() + 1
    &&& forall|k: int|
        0 <= k < moves.len() ==> floors[k].can(#[trigger] moves[k]) && floors[k + 1]
            == floors[k].after(moves[k])
}

/// A pool on which nobody works yet, together with a trade without buffers.
pub open spec fn fresh(pool: PoolState, threads: Set<int>, shape: Shape) -> Floor {
    Floor {
        pool,
        takes: Map::empty(),
        gives: Map::empty(),
        owner: Map::empty(),
        stored: Map::empty(),
        trade: Trade {
            crowd: Crowd {
                words: pool.words,
                list: Seq::empty(),
                pushes: Map::empty(),
                pops: Map::empty(),
                hazards: Map::new(|w: int| threads.contains(w), |w: int| 0u64),
                doomed: Map::empty(),
            },
            shape,
            threads,
            place: Map::empty(),
            takes: Map::empty(),
            gives: Map::empty(),
            allocated: 0,
            in_list: 0,
            retired: 0,
            alloc_max: pool.alloc_max,
            list_max: pool.list_max,
            retired_max: pool.retired_max,
        },
    }
}

} // verus!

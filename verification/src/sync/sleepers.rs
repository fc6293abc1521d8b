//! Why nobody who waits for a channel is forgotten.
//!
//! Senders and receivers first try without the lock, then once more under it,
//! and only then go to sleep, giving the lock up as they do. Whoever changes
//! the channel takes the lock afterwards and wakes all sleepers. A [`Dormitory`]
//! is a channel together with the threads that work on it; each of its steps is
//! one access of one thread. An attempt to send or to receive counts from the
//! moment at which it has its place in the buffer: nobody can stop it then.

use super::channel;
use super::channel::Stage;
use vstd::prelude::*;

verus! {

/// Whether a thread at this stage has the lock.
pub open spec fn locked(s: Stage) -> bool {
    ||| s == Stage::SendSlow
    ||| s == Stage::SendLook
    ||| s == Stage::SendDoze
    ||| s == Stage::RecvSlow
    ||| s == Stage::RecvClosed
    ||| s == Stage::RecvLook
    ||| s == Stage::RecvDoze
    ||| s == Stage::Ring
}

/// A channel and the threads that work on it.
pub struct Dormitory {
    pub items: int,
    pub capacity: int,
    pub senders: int,
    pub receivers: int,
    /// The thread that has the lock.
    pub lock: Option<int>,
    pub threads: Map<int, Stage>,
}

impl Dormitory {
    /// Whether one of the sides has nobody left.
    pub open spec fn closed(self) -> bool {
        self.senders == 0 || self.receivers == 0
    }

    /// Whether thread `id` is going to wake the sleepers.
    pub open spec fn rings(self, id: int) -> bool {
        self.threads.dom().contains(id) && (self.threads[id] == Stage::Alarm || self.threads[id]
            == Stage::Ring)
    }

    /// Whether someone is going to wake the sleepers.
    pub open spec fn alarmed(self) -> bool {
        exists|id: int| #[trigger] self.rings(id)
    }

    /// Whether a thread at a stage has a reason to be there: one that sleeps or
    /// is about to has nothing to do, unless someone is going to wake it.
    pub open spec fn justified(self, s: Stage) -> bool {
        match s {
            Stage::SendLook => self.items >= self.capacity || self.alarmed(),
            Stage::SendDoze | Stage::SendAsleep => {
                self.items >= self.capacity && !self.closed() || self.alarmed()
            },
            Stage::RecvClosed | Stage::RecvLook => self.items == 0 || self.alarmed(),
            Stage::RecvDoze | Stage::RecvAsleep => {
                self.items == 0 && !self.closed() || self.alarmed()
            },
            _ => true,
        }
    }

    /// What always holds.
    pub open spec fn consistent(self) -> bool {
        &&& self.items >= 0
        &&& forall|id: int| self.threads.dom().contains(id) ==> self.justified(
            #[trigger] self.threads[id],
        )
        &&& forall|id: int|
            self.threads.dom().contains(id) && locked(#[trigger] self.threads[id]) ==> self.lock
                == Some(id)
    }

    /// The threads with one of them at another stage.
    pub open spec fn moved(self, id: int, s: Stage) -> Dormitory {
        Dormitory { threads: self.threads.insert(id, s), ..self }
    }

    /// The sleepers woken: they start again.
    pub open spec fn woken(self) -> Dormitory {
        Dormitory {
            threads: self.threads.map_values(
                |s: Stage|
                    match s {
                        Stage::SendAsleep => Stage::SendCheck,
                        Stage::RecvAsleep => Stage::RecvFast,
                        _ => s,
                    },
            ),
            ..self
        }
    }

    /// Whether thread `id` may fail to send or receive. Without the lock it may
    /// always be outrun. Under the lock it fails only if there is no room, or no
    /// item, or others came first: these are going to wake the sleepers, and
    /// cannot do so while the lock is held.
    pub open spec fn may_fail(self, id: int) -> bool {
        match self.threads[id] {
            Stage::SendSlow => self.items >= self.capacity || self.alarmed(),
            Stage::RecvSlow => self.items == 0 || self.alarmed(),
            Stage::DropSender | Stage::DropReceiver => false,
            _ => true,
        }
    }

    /// Whether thread `id` may succeed in sending or receiving.
    pub open spec fn may_succeed(self, id: int) -> bool {
        match self.threads[id] {
            Stage::SendFast | Stage::SendSlow => self.items < self.capacity,
            Stage::RecvFast | Stage::RecvSlow => self.items > 0,
            Stage::DropSender => self.senders > 0,
            Stage::DropReceiver => self.receivers > 0,
            _ => true,
        }
    }

    /// One step of thread `id`; `success` says how an attempt to send or to
    /// receive ends.
    pub open spec fn step(self, id: int, success: bool) -> Dormitory {
        let s = self.threads[id];
        let (after, held) = channel::stage_next(s, self.closed(), success, self.lock is Some);
        let next = Dormitory {
            items: if success && (s == Stage::SendFast || s == Stage::SendSlow) {
                self.items + 1
            } else if success && (s == Stage::RecvFast || s == Stage::RecvSlow) {
                self.items - 1
            } else {
                self.items
            },
            senders: if s == Stage::DropSender {
                self.senders - 1
            } else {
                self.senders
            },
            receivers: if s == Stage::DropReceiver {
                self.receivers - 1
            } else {
                self.receivers
            },
            lock: if held && self.lock is None {
                Some(id)
            } else if held {
                self.lock
            } else {
                None
            },
            ..self.moved(id, after)
        };
        if s == Stage::Ring {
            next.woken()
        } else {
            next
        }
    }
}

/// Whoever has changed the channel, or found it closed, rings before it leaves,
/// and nobody rings for another reason.
pub proof fn changes_are_announced(s: Stage, closed: bool, success: bool, held: bool)
    ensures
        ({
            let (after, _) = channel::stage_next(s, closed, success, held);
            &&& after == Stage::Done ==> s == Stage::Ring || s == Stage::Done
            &&& after == Stage::Ring ==> {
                ||| s == Stage::Alarm && !held
                ||| s == Stage::SendSlow && success
                ||| s == Stage::RecvSlow && success
                ||| s == Stage::RecvClosed && closed
            }
            &&& after == Stage::Alarm ==> {
                ||| s == Stage::Alarm && held
                ||| s == Stage::SendCheck && closed
                ||| s == Stage::SendFast && success
                ||| s == Stage::RecvFast && success
                ||| s == Stage::DropSender
                ||| s == Stage::DropReceiver
            }
            &&& success && (s == Stage::SendFast || s == Stage::RecvFast) ==> after == Stage::Alarm
            &&& success && (s == Stage::SendSlow || s == Stage::RecvSlow) ==> after == Stage::Ring
            &&& closed && s == Stage::SendCheck ==> after == Stage::Alarm
            &&& closed && s == Stage::RecvClosed ==> after == Stage::Ring
            &&& s == Stage::DropSender || s == Stage::DropReceiver ==> after == Stage::Alarm
            &&& s == Stage::Ring ==> after == Stage::Done
        }),
{
}

/// The lock is taken only where it is free, and given up by whoever leaves, falls
/// asleep, or finds the channel closed and starts over.
pub proof fn lock_is_taken_free_and_given_up(s: Stage, closed: bool, success: bool, held: bool)
    ensures
        ({
            let (after, still) = channel::stage_next(s, closed, success, held);
            &&& still && !held ==> s == Stage::SendLock || s == Stage::RecvLock || s == Stage::Alarm
            &&& s == Stage::SendLock || s == Stage::RecvLock || s == Stage::Alarm ==> still && (
            after == s <==> held)
            &&& s == Stage::SendLock && !held ==> after == Stage::SendSlow
            &&& s == Stage::RecvLock && !held ==> after == Stage::RecvSlow
            &&& s == Stage::Alarm && !held ==> after == Stage::Ring
            &&& held && !still ==> {
                ||| s == Stage::Ring
                ||| s == Stage::SendDoze
                ||| s == Stage::RecvDoze
                ||| s == Stage::SendLook && closed
                ||| s == Stage::RecvLook && closed
            }
            &&& s == Stage::Ring || s == Stage::SendDoze || s == Stage::RecvDoze ==> !still
            &&& s == Stage::SendLook && closed ==> after == Stage::SendCheck && !still
            &&& s == Stage::RecvLook && closed ==> after == Stage::RecvFast && !still
        }),
{
}

/// Nobody falls asleep without having failed twice, the second time under the
/// lock, and having found the channel open afterwards.
pub proof fn sleep_comes_last(s: Stage, closed: bool, success: bool, held: bool)
    ensures
        ({
            let (after, _) = channel::stage_next(s, closed, success, held);
            &&& after == Stage::SendAsleep <==> s == Stage::SendDoze || s == Stage::SendAsleep
            &&& after == Stage::SendDoze <==> s == Stage::SendLook && !closed
            &&& after == Stage::SendLook <==> s == Stage::SendSlow && !success
            &&& after == Stage::SendLock <==> s == Stage::SendFast && !success || s
                == Stage::SendLock && held
            &&& after == Stage::SendFast <==> s == Stage::SendCheck && !closed
            &&& after == Stage::RecvAsleep <==> s == Stage::RecvDoze || s == Stage::RecvAsleep
            &&& after == Stage::RecvDoze <==> s == Stage::RecvLook && !closed
            &&& after == Stage::RecvLook <==> s == Stage::RecvClosed && !closed
            &&& after == Stage::RecvClosed <==> s == Stage::RecvSlow && !success
            &&& after == Stage::RecvLock <==> s == Stage::RecvFast && !success || s
                == Stage::RecvLock && held
        }),
{
}

/// The channel of a dormitory is closed as soon as one side has nobody left, and
/// not before.
pub proof fn dormitory_closes_once_a_side_is_gone(d: Dormitory)
    ensures
        d.senders == 0 ==> d.closed(),
        d.receivers == 0 ==> d.closed(),
        d.closed() ==> d.senders == 0 || d.receivers == 0,
{
}

/// Every step of every thread keeps the dormitory in order.
pub proof fn step_keeps_consistent(d: Dormitory, id: int, success: bool)
    requires
        d.consistent(),
        d.threads.dom().contains(id),
        success ==> d.may_succeed(id),
        !success ==> d.may_fail(id),
    ensures
        d.step(id, success).consistent(),
{
    let e = d.step(id, success);
    let s = d.threads[id];
    assert(d.justified(s));
    if s == Stage::Ring {
        assert(d.lock == Some(id));
        assert forall|k: int| e.threads.dom().contains(k) implies e.justified(
            #[trigger] e.threads[k],
        ) by {
            assert(d.moved(id, Stage::Done).threads.dom().contains(k));
            if k != id && locked(d.threads[k]) {
                assert(d.lock == Some(k));
            }
        }
        assert forall|k: int|
            e.threads.dom().contains(k) && locked(#[trigger] e.threads[k]) implies e.lock == Some(
            k,
        ) by {
            assert(d.moved(id, Stage::Done).threads.dom().contains(k));
            if k != id {
                assert(locked(d.threads[k]));
            }
        }
    } else {
        let after = e.threads[id];
        if after == Stage::Alarm || after == Stage::Ring {
            assert(e.rings(id));
            assert(e.alarmed());
        }
        if d.alarmed() {
            let r = choose|r: int| #[trigger] d.rings(r);
            assert(e.rings(r));
            assert(e.alarmed());
        }
        assert forall|k: int| e.threads.dom().contains(k) implies e.justified(
            #[trigger] e.threads[k],
        ) by {
            if k != id {
                assert(d.justified(d.threads[k]));
            }
        }
        assert forall|k: int|
            e.threads.dom().contains(k) && locked(#[trigger] e.threads[k]) implies e.lock == Some(
            k,
        ) by {
            if k != id {
                assert(locked(d.threads[k]));
            }
        }
    }
}

/// A thread may turn up at any time to send, to receive or to go.
pub proof fn arrival_keeps_consistent(d: Dormitory, id: int, s: Stage)
    requires
        d.consistent(),
        !d.threads.dom().contains(id),
        s == Stage::SendCheck || s == Stage::RecvFast || s == Stage::DropSender || s
            == Stage::DropReceiver,
    ensures
        d.moved(id, s).consistent(),
{
    let e = d.moved(id, s);
    if d.alarmed() {
        let r = choose|r: int| #[trigger] d.rings(r);
        assert(e.rings(r));
    }
    assert forall|k: int| e.threads.dom().contains(k) implies e.justified(
        #[trigger] e.threads[k],
    ) by {
        if k != id {
            assert(d.justified(d.threads[k]));
        }
    }
}

/// Nobody sleeps in vain: a receiver sleeps only while there is nothing to
/// receive and the channel is open, a sender only while there is no room and
/// the channel is open, unless someone is about to wake them.
pub proof fn nobody_sleeps_in_vain(d: Dormitory, id: int)
    requires
        d.consistent(),
        d.threads.dom().contains(id),
    ensures
        d.threads[id] == Stage::RecvAsleep ==> d.items == 0 && !d.closed() || d.alarmed(),
        d.threads[id] == Stage::SendAsleep ==> d.items >= d.capacity && !d.closed() || d.alarmed(),
{
    assert(d.justified(d.threads[id]));
}

/// Waking reaches every sleeper.
pub proof fn ringing_wakes_everyone(d: Dormitory, id: int, sleeper: int)
    requires
        d.threads.dom().contains(id),
        d.threads[id] == Stage::Ring,
        d.threads.dom().contains(sleeper),
    ensures
        d.step(id, true).threads[sleeper] != Stage::SendAsleep,
        d.step(id, true).threads[sleeper] != Stage::RecvAsleep,
{
    let m = d.moved(id, Stage::Done);
    assert(m.threads.dom().contains(sleeper));
    assert(m.threads.dom().contains(id));
}

} // verus!

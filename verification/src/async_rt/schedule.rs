//! Any number of threads that wake and run one task.
//!
//! A [`Traffic`] is a task together with its entries in the queue and the wakes
//! and runs in progress. Each of its steps is one access of one of these, so
//! what holds after every step holds however they are interleaved.

use super::task;
use super::task::{RunOp, ScheduleOp, State};
use vstd::prelude::*;

verus! {

/// Who is responsible for a scheduled task being run.
pub enum Ticket {
    /// Nobody: the task is not scheduled.
    Nobody,
    /// A wake that is about to send it to the queue.
    Wake(int),
    /// A run that is about to send it to the queue again.
    Run(int),
    /// The queue, which has it.
    Queue,
    /// A run that has taken it from the queue.
    Taken(int),
}

/// A task, its queue entries, and the wakes and runs in progress.
pub struct Traffic {
    pub state: State,
    /// How many entries the queue has for the task.
    pub queued: int,
    pub wakes: Map<int, ScheduleOp>,
    pub runs: Map<int, RunOp>,
    pub ticket: Ticket,
    /// The run that holds the poll lock.
    pub poller: Option<int>,
}

/// Whether a run at this point holds the poll lock.
pub open spec fn holds_poll_lock(op: RunOp) -> bool {
    ||| op == RunOp::Polling
    ||| op == RunOp::Complete
    ||| op == RunOp::Release
    ||| op == RunOp::ToIdle
    ||| op == RunOp::ToScheduled
}

impl Traffic {
    /// A wake that is about to send the task has the ticket.
    pub open spec fn wake_ok(self, id: int) -> bool {
        self.wakes[id] == ScheduleOp::Send ==> self.ticket == Ticket::Wake(id)
    }

    /// A run that has taken the task, or is about to send it, has the ticket;
    /// one that polls it has the poll lock. No run finds the task in a state
    /// that it would have to hand back.
    pub open spec fn run_ok(self, id: int) -> bool {
        &&& self.runs[id] == RunOp::Load || self.runs[id] == RunOp::Claim ==> self.ticket
            == Ticket::Taken(id)
        &&& self.runs[id] == RunOp::Send ==> self.ticket == Ticket::Run(id)
        &&& holds_poll_lock(self.runs[id]) ==> self.poller == Some(id)
        &&& self.runs[id] != RunOp::HandBack
    }

    /// What always holds.
    pub open spec fn consistent(self) -> bool {
        &&& self.state == State::Scheduled <==> self.ticket != Ticket::Nobody
        &&& self.queued == if self.ticket == Ticket::Queue {
            1int
        } else {
            0int
        }
        &&& (self.state == State::Running || self.state == State::RunningNotified)
            <==> self.poller is Some
        &&& self.poller matches Some(id) ==> self.runs.dom().contains(id) && holds_poll_lock(
            self.runs[id],
        )
        &&& forall|id: int| self.wakes.dom().contains(id) ==> #[trigger] self.wake_ok(id)
        &&& forall|id: int| self.runs.dom().contains(id) ==> #[trigger] self.run_ok(id)
    }

    /// A new task.
    pub open spec fn fresh() -> Traffic {
        Traffic {
            state: State::Idle,
            queued: 0,
            wakes: Map::empty(),
            runs: Map::empty(),
            ticket: Ticket::Nobody,
            poller: None,
        }
    }

    /// A wake begins.
    pub open spec fn start_wake(self, id: int) -> Traffic {
        Traffic { wakes: self.wakes.insert(id, ScheduleOp::Load), ..self }
    }

    /// A worker takes the task from the queue and a run begins.
    pub open spec fn start_run(self, id: int) -> Traffic {
        Traffic {
            queued: self.queued - 1,
            runs: self.runs.insert(id, RunOp::Load),
            ticket: Ticket::Taken(id),
            ..self
        }
    }

    /// One step of a wake.
    pub open spec fn step_wake(self, id: int) -> Traffic {
        if self.wakes[id] == ScheduleOp::Send {
            Traffic {
                queued: self.queued + 1,
                ticket: Ticket::Queue,
                wakes: self.wakes.insert(id, ScheduleOp::Done),
                ..self
            }
        } else {
            let (after, state) = task::schedule_next(self.wakes[id], self.state);
            Traffic {
                state,
                wakes: self.wakes.insert(id, after),
                ticket: if after == ScheduleOp::Send {
                    Ticket::Wake(id)
                } else {
                    self.ticket
                },
                ..self
            }
        }
    }

    /// One step of a run; `ready` is the result of the poll, where it is one.
    pub open spec fn step_run(self, id: int, ready: bool) -> Traffic {
        if self.runs[id] == RunOp::Send {
            Traffic {
                queued: self.queued + 1,
                ticket: Ticket::Queue,
                runs: self.runs.insert(id, RunOp::Done),
                ..self
            }
        } else if self.runs[id] == RunOp::Polling {
            let after = if ready {
                RunOp::Complete
            } else {
                RunOp::Release
            };
            Traffic { runs: self.runs.insert(id, after), ..self }
        } else {
            let (after, state) = task::run_next(self.runs[id], self.state);
            Traffic {
                state,
                runs: self.runs.insert(id, after),
                ticket: if after == RunOp::Send {
                    Ticket::Run(id)
                } else if after == RunOp::Polling {
                    Ticket::Nobody
                } else {
                    self.ticket
                },
                poller: if after == RunOp::Polling {
                    Some(id)
                } else if holds_poll_lock(self.runs[id]) && !holds_poll_lock(after) {
                    None
                } else {
                    self.poller
                },
                ..self
            }
        }
    }
}

/// A new task is in order.
pub proof fn fresh_task_is_consistent()
    ensures
        Traffic::fresh().consistent(),
{
}

/// A wake may begin at any time.
pub proof fn start_wake_keeps_consistent(t: Traffic, id: int)
    requires
        t.consistent(),
        !t.wakes.dom().contains(id),
    ensures
        t.start_wake(id).consistent(),
{
    let u = t.start_wake(id);
    assert forall|k: int| u.wakes.dom().contains(k) implies #[trigger] u.wake_ok(k) by {
        if k != id {
            assert(t.wake_ok(k));
        }
    }
    assert forall|k: int| u.runs.dom().contains(k) implies #[trigger] u.run_ok(k) by {
        assert(t.run_ok(k));
    }
}

/// A run may begin whenever the queue has the task; the task is scheduled then.
pub proof fn start_run_keeps_consistent(t: Traffic, id: int)
    requires
        t.consistent(),
        t.queued > 0,
        !t.runs.dom().contains(id),
    ensures
        t.start_run(id).consistent(),
        t.state == State::Scheduled,
{
    let u = t.start_run(id);
    assert forall|k: int| u.wakes.dom().contains(k) implies #[trigger] u.wake_ok(k) by {
        assert(t.wake_ok(k));
    }
    assert forall|k: int| u.runs.dom().contains(k) implies #[trigger] u.run_ok(k) by {
        if k != id {
            assert(t.run_ok(k));
        }
    }
}

/// Every step of a wake keeps the task in order.
pub proof fn step_wake_keeps_consistent(t: Traffic, id: int)
    requires
        t.consistent(),
        t.wakes.dom().contains(id),
    ensures
        t.step_wake(id).consistent(),
{
    let u = t.step_wake(id);
    assert(t.wake_ok(id));
    assert forall|k: int| u.wakes.dom().contains(k) implies #[trigger] u.wake_ok(k) by {
        if k != id {
            assert(t.wake_ok(k));
        }
    }
    assert forall|k: int| u.runs.dom().contains(k) implies #[trigger] u.run_ok(k) by {
        assert(t.run_ok(k));
    }
}

/// Every step of a run keeps the task in order.
pub proof fn step_run_keeps_consistent(t: Traffic, id: int, ready: bool)
    requires
        t.consistent(),
        t.runs.dom().contains(id),
    ensures
        t.step_run(id, ready).consistent(),
{
    let u = t.step_run(id, ready);
    assert(t.run_ok(id));
    assert forall|k: int| u.wakes.dom().contains(k) implies #[trigger] u.wake_ok(k) by {
        assert(t.wake_ok(k));
    }
    assert forall|k: int| u.runs.dom().contains(k) implies #[trigger] u.run_ok(k) by {
        if k != id {
            assert(t.run_ok(k));
        }
    }
}

/// Only one thread polls the future at a time.
pub proof fn one_poller_at_a_time(t: Traffic, a: int, b: int)
    requires
        t.consistent(),
        t.runs.dom().contains(a),
        t.runs.dom().contains(b),
        holds_poll_lock(t.runs[a]),
        holds_poll_lock(t.runs[b]),
    ensures
        a == b,
        t.state == State::Running || t.state == State::RunningNotified,
{
    assert(t.run_ok(a));
    assert(t.run_ok(b));
}

/// The queue never has the task twice, and never while it is being polled.
pub proof fn queued_at_most_once(t: Traffic)
    requires
        t.consistent(),
    ensures
        0 <= t.queued <= 1,
        t.queued == 1 ==> t.poller is None,
{
}

/// No wake is lost: when it has done its part the task is scheduled, or its
/// poller has a note, or it is completed.
pub proof fn finished_wake_has_left_its_mark(t: Traffic, id: int)
    requires
        t.consistent(),
        t.wakes.dom().contains(id),
        t.wakes[id] == ScheduleOp::Load || t.wakes[id] == ScheduleOp::FromIdle || t.wakes[id]
            == ScheduleOp::FromRunning,
        t.step_wake(id).wakes[id] == ScheduleOp::Done || t.step_wake(id).wakes[id]
            == ScheduleOp::Send,
    ensures
        ({
            let s = t.step_wake(id).state;
            s == State::Scheduled || s == State::RunningNotified || s == State::Completed
        }),
{
}

/// The mark of a wake is not wiped out: a scheduled task stays so until a run
/// claims it to poll it, and a poller with a note schedules the task again or
/// completes it, whatever anyone does.
pub proof fn mark_of_a_wake_stays(t: Traffic, id: int, ready: bool)
    requires
        t.consistent(),
    ensures
        t.wakes.dom().contains(id) && t.state == State::Scheduled ==> t.step_wake(id).state
            == State::Scheduled,
        t.wakes.dom().contains(id) && t.state == State::RunningNotified ==> t.step_wake(id).state
            == State::RunningNotified,
        t.wakes.dom().contains(id) && t.state == State::Completed ==> t.step_wake(id).state
            == State::Completed,
        t.runs.dom().contains(id) && t.state == State::Scheduled ==> t.step_run(id, ready).state
            == State::Scheduled || t.step_run(id, ready).runs[id] == RunOp::Polling,
        t.runs.dom().contains(id) && t.state == State::RunningNotified ==> {
            let s = t.step_run(id, ready).state;
            s == State::RunningNotified || s == State::Scheduled || s == State::Completed
        },
        t.runs.dom().contains(id) && t.state == State::Completed ==> t.step_run(id, ready).state
            == State::Completed,
{
    if t.runs.dom().contains(id) {
        assert(t.run_ok(id));
    }
}

/// A run that has taken the task from the queue never has to hand it back: it
/// finds the task scheduled and polls it.
pub proof fn taken_task_is_scheduled(t: Traffic, id: int)
    requires
        t.consistent(),
        t.runs.dom().contains(id),
    ensures
        t.runs[id] == RunOp::Load || t.runs[id] == RunOp::Claim ==> t.state == State::Scheduled,
        t.runs[id] != RunOp::HandBack,
{
    assert(t.run_ok(id));
}

} // verus!

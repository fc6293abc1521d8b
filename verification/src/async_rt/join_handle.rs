//! Waiting for the output of a task.
//!
//! A join handle looks for the output, leaves its waker, and looks again; the
//! task leaves its output, and takes the waker afterwards. So whoever comes
//! second sees what the first has left.

use crate::sync::atomic_option::AtomicOption;
use crate::sync::oneshot;
use crate::sync::oneshot::{Oneshot, Receiver};
use vstd::prelude::*;

verus! {

/// The receiving side of the output of a spawned task.
///
/// Giving the handle up does **not** cancel the task; it continues running to
/// completion.
#[derive(Debug)]
pub struct JoinHandle<T> {
    pub receiver: Receiver<T>,
}

/// What a poll of a join handle comes to.
#[derive(Debug)]
pub enum Joined<T> {
    /// The output of the task.
    Ready(T),
    /// The task is not done; its end will wake the waker that was left.
    Pending,
}

/// What a poll does next.
#[derive(Clone, Copy, Debug, PartialEq, Eq, Structural)]
pub enum JoinAt {
    /// Looks for the output.
    Look,
    /// Leaves the waker.
    Leave,
    /// Looks for the output again.
    LookAgain,
    /// Takes the waker back.
    TakeBack,
    /// Nothing: it had the output.
    Ready,
    /// Nothing: it had no output.
    Pending,
}

/// One step of a poll; `output` and `waker` say whether the output and the waker
/// are there.
pub open spec fn join_next(at: JoinAt, output: bool, waker: bool) -> (JoinAt, bool, bool) {
    match at {
        JoinAt::Look => if output {
            (JoinAt::Ready, false, waker)
        } else {
            (JoinAt::Leave, output, waker)
        },
        JoinAt::Leave => (JoinAt::LookAgain, output, true),
        JoinAt::LookAgain => if output {
            (JoinAt::TakeBack, false, waker)
        } else {
            (JoinAt::Pending, output, waker)
        },
        JoinAt::TakeBack => (JoinAt::Ready, output, false),
        JoinAt::Ready | JoinAt::Pending => (at, output, waker),
    }
}

/// A handle is ready only with the output in hand, and pending only after it has
/// left its waker and found no output since. An output that comes in between is
/// taken, and the waker with it; looking without success takes nothing.
pub proof fn output_is_taken_with_the_waker(at: JoinAt, output: bool, waker: bool)
    ensures
        ({
            let (after, left, woken) = join_next(at, output, waker);
            &&& at == JoinAt::Look && output ==> after == JoinAt::Ready && !left && woken == waker
            &&& at == JoinAt::Look && !output ==> join_next(after, output, waker) == (
                JoinAt::LookAgain,
                output,
                true,
            )
            &&& at == JoinAt::LookAgain && output ==> !left && join_next(after, left, woken) == (
                JoinAt::Ready,
                false,
                false,
            )
            &&& at == JoinAt::LookAgain && !output ==> after == JoinAt::Pending && woken == waker
            &&& after == JoinAt::Ready ==> at == JoinAt::Look && output || at == JoinAt::TakeBack
                || at == JoinAt::Ready
            &&& after == JoinAt::Pending ==> at == JoinAt::LookAgain && !output || at
                == JoinAt::Pending
            &&& left != output ==> output && (at == JoinAt::Look || at == JoinAt::LookAgain)
            &&& at == JoinAt::Leave ==> after == JoinAt::LookAgain && left == output && woken
            &&& at == JoinAt::TakeBack ==> after == JoinAt::Ready && left == output && !woken
            &&& at == JoinAt::Ready || at == JoinAt::Pending ==> (after, left, woken) == (
                at,
                output,
                waker,
            )
        }),
{
}

/// Whether the output of a task is there.
pub open spec fn has_output<T>(shared: Oneshot<T>) -> bool {
    shared.lock == oneshot::DONE && shared.value is Some
}

/// A poll in progress.
#[derive(Debug)]
pub struct JoinOp<T, W> {
    /// The waker while it has not been left.
    pub waker: Option<W>,
    /// The output, once it has been received.
    pub output: Option<T>,
    pub at: JoinAt,
}

impl<T, W> JoinOp<T, W> {
    /// A poll that has not begun.
    pub fn start(waker: W) -> (r: Self)
        ensures
            r.waker == Some(waker),
            r.output is None,
            r.at == JoinAt::Look,
    {
        JoinOp { waker: Some(waker), output: None, at: JoinAt::Look }
    }

    /// Performs one step.
    pub fn step(
        &mut self,
        receiver: &Receiver<T>,
        shared: &mut Oneshot<T>,
        cell: &mut AtomicOption<W>,
    )
        requires
            old(cell).wf(),
            old(self).at == JoinAt::Leave ==> old(self).waker is Some,
        ensures
            final(cell).wf(),
            final(shared).lock == old(shared).lock,
            (final(self).at, has_output(*final(shared)), final(cell)@ is Some) == join_next(
                old(self).at,
                has_output(*old(shared)),
                old(cell)@ is Some,
            ),
            if old(self).at == JoinAt::Look || old(self).at == JoinAt::LookAgain {
                &&& final(cell)@ == old(cell)@
                &&& final(self).waker == old(self).waker
                &&& if has_output(*old(shared)) {
                    final(self).output == old(shared).value && final(shared).value is None
                } else {
                    final(self).output == old(self).output && final(shared).value == old(
                        shared,
                    ).value
                }
            } else {
                &&& final(self).output == old(self).output
                &&& final(shared).value == old(shared).value
                &&& if old(self).at == JoinAt::Leave {
                    final(cell)@ == old(self).waker && final(self).waker is None
                } else {
                    final(self).waker == old(self).waker && (old(self).at != JoinAt::TakeBack
                        ==> final(cell)@ == old(cell)@)
                }
            },
    {
        match self.at {
            JoinAt::Look => {
                self.at = match receiver.try_recv(shared) {
                    Some(output) => {
                        self.output = Some(output);
                        JoinAt::Ready
                    },
                    None => JoinAt::Leave,
                };
            },
            JoinAt::Leave => {
                if let Some(waker) = self.waker.take() {
                    let _ = cell.replace(waker);
                }
                self.at = JoinAt::LookAgain;
            },
            JoinAt::LookAgain => {
                self.at = match receiver.try_recv(shared) {
                    Some(output) => {
                        self.output = Some(output);
                        JoinAt::TakeBack
                    },
                    None => JoinAt::Pending,
                };
            },
            JoinAt::TakeBack => {
                // A stale wake would reschedule for nothing.
                let _ = cell.take();
                self.at = JoinAt::Ready;
            },
            JoinAt::Ready | JoinAt::Pending => {},
        }
    }
}

impl<T> JoinHandle<T> {
    /// Polls for the output. `waker` is the waker of whoever waits.
    pub fn poll<W>(
        &self,
        shared: &mut Oneshot<T>,
        cell: &mut AtomicOption<W>,
        waker: W,
    ) -> (r: Joined<T>)
        requires
            old(cell).wf(),
        ensures
            final(cell).wf(),
            final(shared).lock == old(shared).lock,
            if has_output(*old(shared)) {
                &&& r == Joined::Ready(old(shared).value->0)
                &&& final(shared).value is None
                &&& final(cell)@ == old(cell)@
            } else {
                &&& r is Pending
                &&& final(shared).value == old(shared).value
                &&& final(cell)@ == Some(waker)
            },
    {
        let mut op: JoinOp<T, W> = JoinOp::start(waker);
        op.step(&self.receiver, shared, cell);
        op.step(&self.receiver, shared, cell);
        op.step(&self.receiver, shared, cell);
        match op.output {
            Some(output) => Joined::Ready(output),
            None => Joined::Pending,
        }
    }
}

/// What the end of a task does next.
#[derive(Clone, Copy, Debug, PartialEq, Eq, Structural)]
pub enum EndAt {
    /// Leaves the output.
    Output,
    /// Takes the waker and wakes it.
    Wake,
    /// Nothing.
    Done,
}

/// The polls of a join handle and the end of its task, running side by side.
pub struct Meeting {
    /// Whether the output is there.
    pub output: bool,
    /// Whether the waker is there.
    pub waker: bool,
    /// Whether a waker has been woken since the poll began.
    pub woken: bool,
    pub join: JoinAt,
    pub end: EndAt,
}

impl Meeting {
    /// Before either has begun.
    pub open spec fn start() -> Meeting {
        Meeting {
            output: false,
            waker: false,
            woken: false,
            join: JoinAt::Look,
            end: EndAt::Output,
        }
    }

    /// What always holds: the output stays until it is received, and the waker
    /// stays until it is woken or taken back.
    pub open spec fn consistent(self) -> bool {
        &&& self.end != EndAt::Output && self.join != JoinAt::Ready && self.join != JoinAt::TakeBack
            ==> self.output
        &&& self.join == JoinAt::LookAgain || self.join == JoinAt::Pending ==> self.waker
            || self.woken
        &&& self.join == JoinAt::Pending && self.end == EndAt::Done ==> self.woken
    }

    /// One step of the poll.
    pub open spec fn step_join(self) -> Meeting {
        let (join, output, waker) = join_next(self.join, self.output, self.waker);
        Meeting { join, output, waker, ..self }
    }

    /// The handle is polled again after a poll that found nothing.
    pub open spec fn poll_again(self) -> Meeting {
        if self.join == JoinAt::Pending {
            Meeting { join: JoinAt::Look, woken: false, ..self }
        } else {
            self
        }
    }

    /// One step of the end of the task.
    pub open spec fn step_end(self) -> Meeting {
        match self.end {
            EndAt::Output => Meeting { output: true, end: EndAt::Wake, ..self },
            EndAt::Wake => Meeting {
                waker: false,
                woken: self.woken || self.waker,
                end: EndAt::Done,
                ..self
            },
            EndAt::Done => self,
        }
    }
}

/// However the steps of the polls and of the end of the task are interleaved,
/// and however often the handle is polled, both stay in order.
pub proof fn steps_keep_meeting_consistent(m: Meeting)
    requires
        m.consistent(),
    ensures
        Meeting::start().consistent(),
        m.step_join().consistent(),
        m.poll_again().consistent(),
        m.step_end().consistent(),
{
}

/// No wake is lost: once the task has ended, a poll that found nothing has been
/// woken; a poll that goes on after the output was left finds it, and so does
/// one that begins after that.
pub proof fn joiner_is_not_left_waiting(m: Meeting)
    requires
        m.consistent(),
    ensures
        m.join == JoinAt::Pending && m.end == EndAt::Done ==> m.woken,
        m.join == JoinAt::Pending && m.end != EndAt::Done ==> m.waker || m.woken,
        m.join == JoinAt::LookAgain && m.end != EndAt::Output ==> m.step_join().join
            == JoinAt::TakeBack,
        m.join == JoinAt::Pending && m.end != EndAt::Output ==> m.poll_again().step_join().join
            == JoinAt::Ready,
{
}

} // verus!

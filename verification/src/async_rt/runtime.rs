//! What a runtime decides: how many tasks may wait, what the thread does that
//! drives a root future, and how worker threads are given up.

use vstd::prelude::*;

verus! {

/// How many tasks may wait for each worker thread.
pub const TASKS_PER_WORKER: usize = 1024;

/// How many tasks may wait in a runtime with so many worker threads; there is
/// room for those of one worker even if there is none.
pub fn queue_capacity(worker_threads: usize) -> (r: usize)
    requires
        worker_threads * TASKS_PER_WORKER <= usize::MAX,
    ensures
        r == if worker_threads == 0 {
            TASKS_PER_WORKER as int
        } else {
            worker_threads * TASKS_PER_WORKER
        },
        r >= 1024,
        r >= worker_threads * 1024,
        r == 1024 || r == worker_threads * 1024,
{
    let wanted: usize = worker_threads * TASKS_PER_WORKER;
    if wanted > TASKS_PER_WORKER {
        wanted
    } else {
        TASKS_PER_WORKER
    }
}

/// What the thread that drives a root future does next.
#[derive(Clone, Copy, Debug, PartialEq, Eq, Structural)]
pub enum Drive {
    /// Polls the future and reports whether it is ready.
    Poll,
    /// Looks for a queued task and reports whether there is one.
    Look,
    /// Runs the task.
    Run,
    /// Rests for a moment.
    Rest,
    /// Nothing: the future is ready.
    Done,
}

/// What the thread does after it has done `at` and reported `yes` or not.
pub open spec fn drive_next(at: Drive, yes: bool) -> Drive {
    match at {
        Drive::Poll => if yes {
            Drive::Done
        } else {
            Drive::Look
        },
        Drive::Look => if yes {
            Drive::Run
        } else {
            Drive::Rest
        },
        Drive::Run | Drive::Rest => Drive::Poll,
        Drive::Done => Drive::Done,
    }
}

impl Drive {
    /// Goes on; `yes` is what was reported, where something was.
    pub fn advance(&mut self, yes: bool)
        ensures
            *final(self) == drive_next(*old(self), yes),
    {
        *self = match *self {
            Drive::Poll => if yes {
                Drive::Done
            } else {
                Drive::Look
            },
            Drive::Look => if yes {
                Drive::Run
            } else {
                Drive::Rest
            },
            Drive::Run | Drive::Rest => Drive::Poll,
            Drive::Done => Drive::Done,
        };
    }
}

/// A root future is polled over and over until it is ready: whatever is
/// reported in between, a pending future is polled again three steps later, and
/// a ready one ends the drive at once.
pub proof fn pending_root_is_polled_again(a: bool, b: bool)
    ensures
        drive_next(drive_next(drive_next(Drive::Poll, false), a), b) == Drive::Poll,
        drive_next(Drive::Poll, true) == Drive::Done,
        drive_next(Drive::Done, a) == Drive::Done,
{
}

/// A queued task that is found is run before the root future is polled again, and
/// nothing is run where none was found; the thread looks for one after every poll
/// that leaves the future pending.
pub proof fn queued_task_is_run(a: bool)
    ensures
        drive_next(Drive::Poll, false) == Drive::Look,
        drive_next(Drive::Look, true) == Drive::Run,
        drive_next(Drive::Look, false) == Drive::Rest,
        drive_next(Drive::Run, a) == Drive::Poll,
        drive_next(Drive::Rest, a) == Drive::Poll,
{
}

/// What becomes of a worker thread when the runtime is shut down.
#[derive(Clone, Copy, Debug, PartialEq, Eq, Structural)]
pub enum Verdict {
    /// It is waited for.
    Wait,
    /// It has finished and is joined.
    Join,
    /// It is stuck and is left alone.
    Detach,
}

/// What becomes of a thread that has finished or not, when the time to wait has
/// expired or not.
pub open spec fn verdict(finished: bool, expired: bool) -> Verdict {
    if finished {
        Verdict::Join
    } else if expired {
        Verdict::Detach
    } else {
        Verdict::Wait
    }
}

/// A thread that has finished is joined, however late; one that has not is waited
/// for until the time has expired, and left alone from then on.
pub proof fn only_stuck_threads_are_left_alone(finished: bool, expired: bool)
    ensures
        verdict(finished, expired) == Verdict::Join <==> finished,
        verdict(finished, expired) == Verdict::Detach ==> expired && !finished,
        expired ==> verdict(finished, expired) != Verdict::Wait,
        !expired ==> verdict(finished, expired) != Verdict::Detach,
{
}

/// A shutdown in progress.
#[derive(Clone, Copy, Debug, PartialEq, Eq, Structural)]
pub struct Shutdown {
    /// Whether no thread had to be left alone.
    pub clean: bool,
}

impl Shutdown {
    pub fn new() -> (r: Self)
        ensures
            r.clean,
    {
        Shutdown { clean: true }
    }

    /// Decides what becomes of a thread.
    pub fn decide(&mut self, finished: bool, expired: bool) -> (r: Verdict)
        ensures
            r == verdict(finished, expired),
            finished ==> r == Verdict::Join,
            r == Verdict::Detach <==> expired && !finished,
            final(self).clean == (old(self).clean && r != Verdict::Detach),
    {
        if finished {
            Verdict::Join
        } else if expired {
            self.clean = false;
            Verdict::Detach
        } else {
            Verdict::Wait
        }
    }
}

} // verus!

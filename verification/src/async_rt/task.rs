//! Task representation and scheduling.
//!
//! The state of a task is one shared word. [`ScheduleOp`] and [`RunOp`] are a
//! wake and a run taken apart: each call of `step` performs exactly one access
//! to this word. [`Task::schedule`], [`Task::begin_run`] and [`Task::end_run`]
//! run the steps without interference.

use crate::sync::atomic_option::AtomicOption;
use vstd::prelude::*;

verus! {

/// Scheduling state for a task, encoded in a single word.
#[derive(Clone, Copy, Debug, PartialEq, Eq, Structural)]
pub enum State {
    /// Not running, not queued, not completed. Waiting to be woken.
    Idle,
    /// Queued (or about to be handed to the queue), not running.
    Scheduled,
    /// Being polled, with no outstanding wake.
    Running,
    /// Being polled, and a wake arrived during the poll. The poller must
    /// re-enqueue the task if it is still pending.
    RunningNotified,
    /// Completed; terminal.
    Completed,
}

/// The word of a state.
pub open spec fn code(state: State) -> u8 {
    match state {
        State::Idle => 0,
        State::Scheduled => 1,
        State::Running => 2,
        State::RunningNotified => 3,
        State::Completed => 4,
    }
}

/// The state of a word; only words that a state has are ever read.
pub open spec fn state_of(value: u8) -> State {
    if value == 0 {
        State::Idle
    } else if value == 1 {
        State::Scheduled
    } else if value == 2 {
        State::Running
    } else if value == 3 {
        State::RunningNotified
    } else {
        State::Completed
    }
}

/// Reading the word of a state gives the state back.
pub proof fn states_survive_encoding(state: State)
    ensures
        state_of(code(state)) == state,
        code(state) <= 4,
{
}

/// A state has the number of its place in the life of a task: a task is scheduled
/// from idle, runs from scheduled, is notified while it runs, and completed at
/// last.
pub proof fn states_are_numbered_in_order(value: u8)
    ensures
        state_of(value) == State::Idle <==> value == 0,
        state_of(value) == State::Scheduled <==> value == 1,
        state_of(value) == State::Running <==> value == 2,
        state_of(value) == State::RunningNotified <==> value == 3,
        state_of(value) == State::Completed <==> value >= 4,
        value <= 4 ==> code(state_of(value)) == value,
{
}

/// Decodes a word back into a [`State`].
pub fn decode_state(value: u8) -> (r: State)
    requires
        value <= 4,
    ensures
        r == state_of(value),
        code(r) == value,
{
    match value {
        0 => State::Idle,
        1 => State::Scheduled,
        2 => State::Running,
        3 => State::RunningNotified,
        _ => State::Completed,
    }
}

fn encode_state(state: State) -> (r: u8)
    ensures
        r == code(state),
{
    match state {
        State::Idle => 0,
        State::Scheduled => 1,
        State::Running => 2,
        State::RunningNotified => 3,
        State::Completed => 4,
    }
}

/// A single shared word holding a [`State`].
#[derive(Debug)]
pub struct AtomicState {
    pub inner: u8,
}

impl View for AtomicState {
    type V = State;

    open spec fn view(&self) -> State {
        state_of(self.inner)
    }
}

impl AtomicState {
    /// The word is that of a state.
    pub open spec fn wf(&self) -> bool {
        self.inner <= 4
    }

    pub fn new(state: State) -> (r: Self)
        ensures
            r.wf(),
            r@ == state,
    {
        AtomicState { inner: encode_state(state) }
    }

    /// The state.
    pub fn load(&self) -> (r: State)
        requires
            self.wf(),
        ensures
            r == self@,
    {
        decode_state(self.inner)
    }

    /// Replaces the state.
    pub fn store(&mut self, state: State)
        ensures
            final(self).wf(),
            final(self)@ == state,
    {
        self.inner = encode_state(state);
    }

    /// Replaces the state by `new` if it is `current`. Either way the state
    /// found is returned.
    pub fn compare_exchange(&mut self, current: State, new: State) -> (r: Result<State, State>)
        requires
            old(self).wf(),
        ensures
            final(self).wf(),
            r == if old(self)@ == current {
                Ok::<State, State>(old(self)@)
            } else {
                Err(old(self)@)
            },
            final(self)@ == if old(self)@ == current {
                new
            } else {
                old(self)@
            },
    {
        let found: State = self.load();
        if found == current {
            self.store(new);
            Ok(found)
        } else {
            Err(found)
        }
    }
}

/// What a wake does next.
#[derive(Clone, Copy, Debug, PartialEq, Eq, Structural)]
pub enum ScheduleOp {
    /// Reads the state.
    Load,
    /// Makes an idle task scheduled.
    FromIdle,
    /// Leaves a note for the poller of a running task.
    FromRunning,
    /// Hands the task to the queue.
    Send,
    /// Nothing.
    Done,
}

/// One access of a wake to the state.
pub open spec fn schedule_next(op: ScheduleOp, s: State) -> (ScheduleOp, State) {
    match op {
        ScheduleOp::Load => (
            match s {
                State::Idle => ScheduleOp::FromIdle,
                State::Running => ScheduleOp::FromRunning,
                _ => ScheduleOp::Done,
            },
            s,
        ),
        ScheduleOp::FromIdle => if s == State::Idle {
            (ScheduleOp::Send, State::Scheduled)
        } else {
            (ScheduleOp::Load, s)
        },
        ScheduleOp::FromRunning => if s == State::Running {
            (ScheduleOp::Done, State::RunningNotified)
        } else {
            (ScheduleOp::Load, s)
        },
        ScheduleOp::Send | ScheduleOp::Done => (op, s),
    }
}

/// A wake changes the state only where it finds the task idle or running, and
/// ends only where the task is scheduled, notified or completed; otherwise it
/// looks at the state again. Without interference it takes two steps.
pub proof fn wake_ends_only_with_a_mark(op: ScheduleOp, s: State)
    ensures
        ({
            let (after, t) = schedule_next(op, s);
            &&& t != s ==> s == State::Idle && t == State::Scheduled && after == ScheduleOp::Send
                || s == State::Running && t == State::RunningNotified && after == ScheduleOp::Done
            &&& after == ScheduleOp::Send && op != ScheduleOp::Send ==> s == State::Idle
            &&& after == ScheduleOp::Done && op != ScheduleOp::Done ==> t == State::Scheduled || t
                == State::RunningNotified || t == State::Completed
            &&& op == ScheduleOp::Load ==> t == s
            &&& t == s && (op == ScheduleOp::FromIdle || op == ScheduleOp::FromRunning) ==> after
                == ScheduleOp::Load
            &&& op == ScheduleOp::Load ==> {
                let last = schedule_next(after, t).0;
                last == ScheduleOp::Send || last == ScheduleOp::Done
            }
            &&& op == ScheduleOp::Load && after == ScheduleOp::Done ==> s != State::Idle && s
                != State::Running
        }),
{
}

impl ScheduleOp {
    /// Performs one access.
    pub fn step(&mut self, state: &mut AtomicState)
        requires
            old(state).wf(),
        ensures
            final(state).wf(),
            (*final(self), final(state)@) == schedule_next(*old(self), old(state)@),
    {
        match *self {
            ScheduleOp::Load => {
                *self = match state.load() {
                    State::Completed => ScheduleOp::Done,
                    State::Idle => ScheduleOp::FromIdle,
                    State::Running => ScheduleOp::FromRunning,
                    State::Scheduled | State::RunningNotified => ScheduleOp::Done,
                };
            },
            ScheduleOp::FromIdle => {
                let won = state.compare_exchange(State::Idle, State::Scheduled);
                *self = if won.is_ok() {
                    ScheduleOp::Send
                } else {
                    ScheduleOp::Load
                };
            },
            ScheduleOp::FromRunning => {
                let won = state.compare_exchange(State::Running, State::RunningNotified);
                *self = if won.is_ok() {
                    ScheduleOp::Done
                } else {
                    ScheduleOp::Load
                };
            },
            ScheduleOp::Send | ScheduleOp::Done => {},
        }
    }
}

/// What a run does next.
#[derive(Clone, Copy, Debug, PartialEq, Eq, Structural)]
pub enum RunOp {
    /// Reads the state.
    Load,
    /// Acquires the poll lock of a scheduled task.
    Claim,
    /// Hands a task back to the scheduler that is not scheduled.
    HandBack,
    /// Polls the future; the result is to be reported.
    Polling,
    /// Marks the task as completed.
    Complete,
    /// Reads the state after a poll that left the future pending.
    Release,
    /// Gives the poll lock up.
    ToIdle,
    /// Gives the poll lock up after a wake.
    ToScheduled,
    /// Hands the task to the queue.
    Send,
    /// Nothing.
    Done,
}

/// One access of a run to the state.
pub open spec fn run_next(op: RunOp, s: State) -> (RunOp, State) {
    match op {
        RunOp::Load => (
            match s {
                State::Completed => RunOp::Done,
                State::Scheduled => RunOp::Claim,
                _ => RunOp::HandBack,
            },
            s,
        ),
        RunOp::Claim => if s == State::Scheduled {
            (RunOp::Polling, State::Running)
        } else {
            (RunOp::Load, s)
        },
        RunOp::Complete => (RunOp::Done, State::Completed),
        RunOp::Release => (
            if s == State::RunningNotified {
                RunOp::ToScheduled
            } else {
                RunOp::ToIdle
            },
            s,
        ),
        RunOp::ToIdle => if s == State::Running {
            (RunOp::Done, State::Idle)
        } else {
            (RunOp::Release, s)
        },
        RunOp::ToScheduled => if s == State::RunningNotified {
            (RunOp::Send, State::Scheduled)
        } else {
            (RunOp::Release, s)
        },
        RunOp::HandBack | RunOp::Polling | RunOp::Send | RunOp::Done => (op, s),
    }
}

/// A run takes the poll lock only from a scheduled task, and gives it up only by
/// completing the task or by leaving it idle or scheduled, as it was not or was
/// woken meanwhile. A step that finds the state changed looks at it again.
pub proof fn run_changes_only_what_it_holds(op: RunOp, s: State)
    ensures
        ({
            let (after, t) = run_next(op, s);
            &&& after == RunOp::Polling && op != RunOp::Polling ==> op == RunOp::Claim && s
                == State::Scheduled && t == State::Running
            &&& t != s && op != RunOp::Complete ==> {
                ||| op == RunOp::Claim && s == State::Scheduled && t == State::Running
                ||| op == RunOp::ToIdle && s == State::Running && t == State::Idle && after
                    == RunOp::Done
                ||| op == RunOp::ToScheduled && s == State::RunningNotified && t == State::Scheduled
                    && after == RunOp::Send
            }
            &&& op == RunOp::Complete ==> t == State::Completed && after == RunOp::Done
            &&& op == RunOp::Claim && t == s ==> after == RunOp::Load
            &&& (op == RunOp::ToIdle || op == RunOp::ToScheduled) && t == s ==> after
                == RunOp::Release
            &&& op == RunOp::Load ==> (after == RunOp::Claim <==> s == State::Scheduled) && (after
                == RunOp::Done <==> s == State::Completed) && t == s
            &&& op == RunOp::Load && s != State::Scheduled && s != State::Completed ==> after
                == RunOp::HandBack
            &&& op == RunOp::Release && s == State::RunningNotified ==> after == RunOp::ToScheduled
            &&& op == RunOp::Release && s == State::Running ==> after == RunOp::ToIdle
            &&& op == RunOp::Claim && s == State::Scheduled ==> t != s
            &&& op == RunOp::ToIdle && s == State::Running ==> t != s
            &&& op == RunOp::ToScheduled && s == State::RunningNotified ==> t != s
            &&& op == RunOp::HandBack || op == RunOp::Polling || op == RunOp::Send || op
                == RunOp::Done ==> after == op && t == s
        }),
{
}

impl RunOp {
    /// Performs one access. After a poll the task is running, with or without a
    /// wake: nobody but the poller changes that.
    pub fn step(&mut self, state: &mut AtomicState)
        requires
            old(state).wf(),
            *old(self) == RunOp::Release ==> old(state)@ == State::Running || old(state)@
                == State::RunningNotified,
        ensures
            final(state).wf(),
            (*final(self), final(state)@) == run_next(*old(self), old(state)@),
    {
        match *self {
            RunOp::Load => {
                *self = match state.load() {
                    State::Completed => RunOp::Done,
                    State::Scheduled => RunOp::Claim,
                    _ => RunOp::HandBack,
                };
            },
            RunOp::Claim => {
                let won = state.compare_exchange(State::Scheduled, State::Running);
                *self = if won.is_ok() {
                    RunOp::Polling
                } else {
                    RunOp::Load
                };
            },
            RunOp::Complete => {
                state.store(State::Completed);
                *self = RunOp::Done;
            },
            RunOp::Release => {
                *self = match state.load() {
                    State::RunningNotified => RunOp::ToScheduled,
                    _ => RunOp::ToIdle,
                };
            },
            RunOp::ToIdle => {
                let won = state.compare_exchange(State::Running, State::Idle);
                *self = if won.is_ok() {
                    RunOp::Done
                } else {
                    RunOp::Release
                };
            },
            RunOp::ToScheduled => {
                let won = state.compare_exchange(State::RunningNotified, State::Scheduled);
                *self = if won.is_ok() {
                    RunOp::Send
                } else {
                    RunOp::Release
                };
            },
            RunOp::HandBack | RunOp::Polling | RunOp::Send | RunOp::Done => {},
        }
    }

    /// Reports the result of the poll: whether the future is ready.
    pub fn polled(&mut self, ready: bool)
        requires
            *old(self) == RunOp::Polling,
        ensures
            *final(self) == if ready {
                RunOp::Complete
            } else {
                RunOp::Release
            },
    {
        *self = if ready {
            RunOp::Complete
        } else {
            RunOp::Release
        };
    }
}

/// A runnable unit of work: its future, its scheduling state, and the waker of
/// whoever waits for it.
#[derive(Debug)]
pub struct Task<F, W> {
    pub state: AtomicState,
    pub future: Option<F>,
    pub waker: AtomicOption<W>,
}

/// How a run begins.
#[derive(Clone, Copy, Debug, PartialEq, Eq, Structural)]
pub enum RunStart {
    /// The poll lock is held: the future is to be polled.
    Poll,
    /// The task is completed already.
    Completed,
    /// The task was not scheduled and has been handed back to the scheduler;
    /// the flag says whether it is to be sent to the queue.
    HandedBack(bool),
}

/// How a run ends.
#[derive(Debug)]
pub enum RunEnd<W> {
    /// The task is completed; whoever waits for it is to be woken.
    Completed(Option<W>),
    /// The task waits to be woken.
    Idle,
    /// The task was woken meanwhile and is to be sent to the queue.
    Send,
}

impl<F, W> Task<F, W> {
    /// The state is valid, and nobody is inside the waker's cell.
    pub open spec fn wf(&self) -> bool {
        self.state.wf() && self.waker.wf()
    }

    /// Creates a new task that will run the given future to completion.
    #[must_use]
    pub fn new(future: F, waker: AtomicOption<W>) -> (r: Task<F, W>)
        requires
            waker.wf(),
        ensures
            r.wf(),
            r.state@ == State::Idle,
            r.future == Some(future),
            r.waker == waker,
    {
        Task { state: AtomicState::new(State::Idle), future: Some(future), waker }
    }

    /// Schedules the task if it is not already queued, running, or completed.
    /// Returns whether it is to be sent to the queue.
    ///
    /// * An idle task becomes scheduled and is to be sent.
    /// * A running one is left with a note for its poller.
    /// * For any other there is nothing to do.
    pub fn schedule(&mut self) -> (send: bool)
        requires
            old(self).wf(),
        ensures
            final(self).wf(),
            final(self).future == old(self).future,
            final(self).waker == old(self).waker,
            send == (old(self).state@ == State::Idle),
            final(self).state@ == match old(self).state@ {
                State::Idle => State::Scheduled,
                State::Running => State::RunningNotified,
                s => s,
            },
    {
        let mut op: ScheduleOp = ScheduleOp::Load;
        op.step(&mut self.state);
        op.step(&mut self.state);
        op == ScheduleOp::Send
    }

    /// Begins a run: acquires the poll lock, so that only one thread polls the
    /// future at a time.
    pub fn begin_run(&mut self) -> (r: RunStart)
        requires
            old(self).wf(),
        ensures
            final(self).wf(),
            final(self).future == old(self).future,
            final(self).waker == old(self).waker,
            match old(self).state@ {
                State::Scheduled => r == RunStart::Poll && final(self).state@ == State::Running,
                State::Completed => r == RunStart::Completed && final(self).state@
                    == State::Completed,
                State::Idle => r == RunStart::HandedBack(true) && final(self).state@
                    == State::Scheduled,
                State::Running | State::RunningNotified => r == RunStart::HandedBack(false)
                    && final(self).state@ == State::RunningNotified,
            },
    {
        let mut op: RunOp = RunOp::Load;
        op.step(&mut self.state);
        op.step(&mut self.state);
        match op {
            RunOp::Polling => RunStart::Poll,
            RunOp::HandBack => RunStart::HandedBack(self.schedule()),
            _ => RunStart::Completed,
        }
    }

    /// Ends a run with the result of the poll: whether the future is ready.
    ///
    /// A future that is ready is dropped, and the task is completed before
    /// whoever waits for it is woken. A task that is still pending gives the
    /// poll lock up; if it was woken during the poll it is scheduled again.
    pub fn end_run(&mut self, ready: bool) -> (r: RunEnd<W>)
        requires
            old(self).wf(),
            old(self).state@ == State::Running || old(self).state@ == State::RunningNotified,
        ensures
            final(self).wf(),
            if ready {
                &&& r == RunEnd::Completed(old(self).waker@)
                &&& final(self).state@ == State::Completed
                &&& final(self).future is None
                &&& final(self).waker@ is None
            } else {
                &&& final(self).future == old(self).future
                &&& final(self).waker == old(self).waker
                &&& if old(self).state@ == State::Running {
                    r is Idle && final(self).state@ == State::Idle
                } else {
                    r is Send && final(self).state@ == State::Scheduled
                }
            },
    {
        let mut op: RunOp = RunOp::Polling;
        op.polled(ready);
        if ready {
            self.future = None;
            op.step(&mut self.state);
            return RunEnd::Completed(self.waker.take());
        }
        op.step(&mut self.state);
        op.step(&mut self.state);
        match op {
            RunOp::Send => RunEnd::Send,
            _ => RunEnd::Idle,
        }
    }
}

/// What a future that yields once says when it is polled.
#[derive(Clone, Copy, Debug, PartialEq, Eq, Structural)]
pub enum YieldPoll {
    /// It is ready.
    Ready,
    /// It is pending; its task is to be woken at once.
    WakeAndPend,
}

/// A future that yields execution back to the runtime once, allowing other
/// tasks to run.
#[derive(Clone, Copy, Debug, PartialEq, Eq, Structural)]
pub struct YieldNow {
    pub yielded: bool,
}

impl YieldNow {
    pub fn new() -> (r: Self)
        ensures
            !r.yielded,
    {
        YieldNow { yielded: false }
    }

    /// The first poll yields, every further one is ready.
    pub fn poll(&mut self) -> (r: YieldPoll)
        ensures
            final(self).yielded,
            r == if old(self).yielded {
                YieldPoll::Ready
            } else {
                YieldPoll::WakeAndPend
            },
    {
        if self.yielded {
            YieldPoll::Ready
        } else {
            self.yielded = true;
            YieldPoll::WakeAndPend
        }
    }
}

} // verus!

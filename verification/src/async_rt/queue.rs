//! The queue of runnable tasks.

use std::collections::VecDeque;
use vstd::prelude::*;

verus! {

/// A FIFO queue of runnable tasks plus a shutdown flag.
#[derive(Debug)]
pub struct Queue<T> {
    pub tasks: VecDeque<T>,
    pub shutdown: bool,
}

/// What a request for a task comes to.
#[derive(Debug)]
pub enum Popped<T> {
    /// A task.
    Task(T),
    /// The queue is empty and shut down.
    ShutDown,
    /// The queue is empty: wait for a while, then ask again.
    Wait,
}

impl<T> View for Queue<T> {
    type V = Seq<T>;

    /// The tasks, the next one first.
    open spec fn view(&self) -> Seq<T> {
        self.tasks@
    }
}

impl<T> Queue<T> {
    /// Creates a new empty queue.
    #[must_use]
    pub fn new() -> (r: Queue<T>)
        ensures
            r@.len() == 0,
            !r.shutdown,
    {
        Queue { tasks: VecDeque::new(), shutdown: false }
    }

    /// Pushes a task onto the back of the queue; one waiter is to be woken.
    pub fn push(&mut self, task: T)
        ensures
            final(self)@ == old(self)@.push(task),
            final(self).shutdown == old(self).shutdown,
    {
        self.tasks.push_back(task);
    }

    /// Pops a task from the front of the queue, or says whether to wait for
    /// one.
    pub fn pop(&mut self) -> (r: Popped<T>)
        ensures
            final(self).shutdown == old(self).shutdown,
            if old(self)@.len() > 0 {
                r == Popped::Task(old(self)@[0]) && final(self)@ == old(self)@.drop_first()
            } else if old(self).shutdown {
                r is ShutDown && final(self)@ == old(self)@
            } else {
                r is Wait && final(self)@ == old(self)@
            },
    {
        match self.try_pop() {
            Some(task) => Popped::Task(task),
            None => if self.shutdown {
                Popped::ShutDown
            } else {
                Popped::Wait
            },
        }
    }

    /// Signals all consumers to exit; all waiters are to be woken.
    pub fn shutdown(&mut self)
        ensures
            final(self)@ == old(self)@,
            final(self).shutdown,
    {
        self.shutdown = true;
    }

    /// Pops a task from the front of the queue if one is available.
    pub fn try_pop(&mut self) -> (r: Option<T>)
        ensures
            final(self).shutdown == old(self).shutdown,
            if old(self)@.len() > 0 {
                r == Some(old(self)@[0]) && final(self)@ == old(self)@.drop_first()
            } else {
                r is None && final(self)@ == old(self)@
            },
    {
        let ghost before = self@;
        let r: Option<T> = self.tasks.pop_front();
        proof {
            if before.len() > 0 {
                assert(self@ =~= before.drop_first());
            } else {
                assert(self@ =~= before);
            }
        }
        r
    }
}

} // verus!

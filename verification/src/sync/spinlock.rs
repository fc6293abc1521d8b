//! A lock that is waited for by trying again and again.

use vstd::prelude::*;

verus! {

/// Spinlock guarantees unique access by spinning the CPU.
///
/// The word is 0 while the lock is free and 1 while it is held.
#[derive(Debug)]
pub struct Spinlock {
    pub lock: usize,
}

/// The right of access; it is given back with [`Guard::release`].
#[derive(Debug)]
pub struct Guard {}

/// One attempt to take a lock whose word is `word`: whether it succeeds, and the
/// word afterwards.
pub open spec fn attempt_next(word: usize) -> (bool, usize) {
    if word == 0 {
        (true, 1)
    } else {
        (false, word)
    }
}

/// An attempt succeeds exactly on a free lock; it leaves the lock held, and one
/// that fails leaves it as it was.
pub proof fn only_a_free_lock_is_taken(word: usize)
    ensures
        attempt_next(word).0 <==> word == 0,
        attempt_next(word).1 == if word == 0 {
            1
        } else {
            word
        },
        !attempt_next(attempt_next(word).1).0,
{
}

impl Default for Spinlock {
    /// A lock that is free.
    fn default() -> (r: Self)
        ensures
            r.lock == 0,
    {
        Spinlock { lock: 0 }
    }
}

impl Spinlock {
    /// Whether nobody holds the lock.
    pub open spec fn free(&self) -> bool {
        self.lock == 0
    }

    /// Tries once to take the lock: one access to its word.
    pub fn try_lock(&mut self) -> (r: Option<Guard>)
        ensures
            (r is Some, final(self).lock) == attempt_next(old(self).lock),
            r is Some <==> old(self).lock == 0,
            r is Some ==> final(self).lock == 1,
            r is None ==> final(self).lock == old(self).lock,
    {
        if self.lock == 0 {
            self.lock = 1;
            Some(Guard {  })
        } else {
            None
        }
    }

    /// Takes the lock, which must be free: nobody else is there to free it.
    pub fn lock(&mut self) -> (r: Guard)
        requires
            old(self).free(),
        ensures
            final(self).lock == 1,
    {
        self.lock = 1;
        Guard {  }
    }
}

impl Guard {
    /// Gives the lock back.
    pub fn release(self, lock: &mut Spinlock)
        requires
            old(lock).lock == 1,
        ensures
            final(lock).free(),
    {
        lock.lock = 0;
    }
}

/// Where a thread stands that wants the lock.
#[derive(Clone, Copy, Debug, PartialEq, Eq, Structural)]
pub enum Standing {
    /// It tries to take the lock.
    Spinning,
    /// It has the lock.
    Holding,
    /// It has given the lock back.
    Gone,
}

/// A lock and the threads that want it.
pub struct Contest {
    /// The word of the lock.
    pub word: usize,
    pub threads: Map<int, Standing>,
}

impl Contest {
    /// Whether thread `id` has the lock.
    pub open spec fn holds(self, id: int) -> bool {
        self.threads.dom().contains(id) && self.threads[id] == Standing::Holding
    }

    /// What always holds: the word says whether someone has the lock, and no
    /// two threads have it.
    pub open spec fn consistent(self) -> bool {
        &&& self.word == 0 || self.word == 1
        &&& self.word == 0 ==> forall|id: int| !#[trigger] self.holds(id)
        &&& self.word == 1 ==> exists|id: int| #[trigger] self.holds(id)
        &&& forall|a: int, b: int| #[trigger] self.holds(a) && #[trigger] self.holds(b) ==> a == b
    }

    /// A thread turns up.
    pub open spec fn join(self, id: int) -> Contest {
        Contest { threads: self.threads.insert(id, Standing::Spinning), ..self }
    }

    /// A thread tries once.
    pub open spec fn attempt(self, id: int) -> Contest {
        let (success, word) = attempt_next(self.word);
        Contest {
            word,
            threads: if success {
                self.threads.insert(id, Standing::Holding)
            } else {
                self.threads
            },
        }
    }

    /// A thread gives the lock back.
    pub open spec fn release(self, id: int) -> Contest {
        Contest { word: 0, threads: self.threads.insert(id, Standing::Gone) }
    }
}

/// However threads turn up, try and give back, at most one of them has the lock
/// at any time.
pub proof fn at_most_one_thread_holds_the_lock(c: Contest, id: int)
    requires
        c.consistent(),
    ensures
        !c.threads.dom().contains(id) ==> c.join(id).consistent(),
        c.threads.dom().contains(id) && c.threads[id] == Standing::Spinning ==> c.attempt(
            id,
        ).consistent(),
        c.holds(id) ==> c.release(id).consistent(),
{
    if !c.threads.dom().contains(id) {
        let d = c.join(id);
        assert forall|k: int| #[trigger] d.holds(k) <==> c.holds(k) by {}
        if c.word == 1 {
            let k = choose|k: int| #[trigger] c.holds(k);
            assert(d.holds(k));
        }
    } else if c.threads[id] == Standing::Spinning {
        let d = c.attempt(id);
        if c.word == 0 {
            assert(d.holds(id));
            assert forall|k: int| #[trigger] d.holds(k) implies k == id by {
                if k != id {
                    assert(c.holds(k));
                }
            }
        }
    } else if c.holds(id) {
        let d = c.release(id);
        assert forall|k: int| !#[trigger] d.holds(k) by {
            if d.holds(k) {
                assert(c.holds(k));
            }
        }
    }
}

/// A thread that tries takes the lock exactly if nobody has it.
pub proof fn attempt_succeeds_iff_nobody_holds(c: Contest, id: int)
    requires
        c.consistent(),
        c.threads.dom().contains(id),
        c.threads[id] == Standing::Spinning,
    ensures
        c.attempt(id).holds(id) <==> forall|k: int| !#[trigger] c.holds(k),
{
}

} // verus!

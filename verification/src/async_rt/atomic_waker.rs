//! A cell for the waker of whoever waits.

use vstd::prelude::*;

verus! {

/// No waker has been registered.
pub const UNREGISTERED: usize = 0;

/// A waker has been registered.
pub const REGISTERED: usize = 1;

/// Someone is writing a waker.
pub const PENDING: usize = 2;

/// A cell for a waker `W`.
#[derive(Debug)]
pub struct AtomicWaker<W> {
    pub state: usize,
    pub waker: Option<W>,
}

impl<W> Default for AtomicWaker<W> {
    /// A cell without a waker.
    fn default() -> (r: Self)
        ensures
            r.state == UNREGISTERED,
            r.waker is None,
    {
        AtomicWaker { state: UNREGISTERED, waker: None }
    }
}

/// What a registration does next.
#[derive(Clone, Copy, Debug, PartialEq, Eq, Structural)]
pub enum RegisterStep {
    /// Reads the state, and reads it again while someone is writing.
    Load,
    /// Claims the cell, if its state has not changed.
    Claim,
    /// Writes the waker.
    Write,
    /// Makes the waker known.
    Publish,
    /// Nothing.
    Done,
}

/// A registration in progress.
#[derive(Debug)]
pub struct RegisterOp<W> {
    pub waker: Option<W>,
    /// The state that was read.
    pub seen: usize,
    pub at: RegisterStep,
}

/// One step of a registration that has read the state `seen`, on a cell in
/// state `state`: what it does next, the state it has read, and the state of the
/// cell.
pub open spec fn register_next(at: RegisterStep, seen: usize, state: usize) -> (
    RegisterStep,
    usize,
    usize,
) {
    match at {
        RegisterStep::Load => (
            if state == PENDING {
                RegisterStep::Load
            } else {
                RegisterStep::Claim
            },
            state,
            state,
        ),
        RegisterStep::Claim => if state == seen {
            (RegisterStep::Write, seen, PENDING)
        } else {
            (RegisterStep::Load, seen, state)
        },
        RegisterStep::Write => (RegisterStep::Publish, seen, state),
        RegisterStep::Publish => (RegisterStep::Done, seen, REGISTERED),
        RegisterStep::Done => (at, seen, state),
    }
}

/// A registration is over only once it has published its waker: one that loses
/// the cell to another, or finds it pending, looks again. It takes the cell only
/// in a state that it has seen and that is not pending.
pub proof fn registration_is_not_given_up(at: RegisterStep, seen: usize, state: usize)
    ensures
        ({
            let (after, found, left) = register_next(at, seen, state);
            &&& after == RegisterStep::Done && at != RegisterStep::Done ==> at
                == RegisterStep::Publish && left == 1
            &&& after == RegisterStep::Publish ==> at == RegisterStep::Write && left == state
            &&& after == RegisterStep::Write ==> at == RegisterStep::Claim && state == seen && left
                == 2
            &&& after == RegisterStep::Claim ==> at == RegisterStep::Load && found == state && state
                != 2 && left == state
            &&& after == RegisterStep::Load ==> left == state && (at == RegisterStep::Load && state
                == 2 || at == RegisterStep::Claim && state != seen)
            &&& at == RegisterStep::Done ==> after == at && left == state
        }),
{
}

impl<W> RegisterOp<W> {
    /// A registration that has not begun.
    pub fn start(waker: W) -> (r: Self)
        ensures
            r.waker == Some(waker),
            r.at == RegisterStep::Load,
    {
        RegisterOp { waker: Some(waker), seen: UNREGISTERED, at: RegisterStep::Load }
    }

    /// Performs one step.
    pub fn step(&mut self, cell: &mut AtomicWaker<W>)
        ensures
            (final(self).at, final(self).seen, final(cell).state) == register_next(
                old(self).at,
                old(self).seen,
                old(cell).state,
            ),
            (final(self).waker, final(cell).waker) == if old(self).at == RegisterStep::Write {
                (None, old(self).waker)
            } else {
                (old(self).waker, old(cell).waker)
            },
    {
        match self.at {
            RegisterStep::Load => {
                self.seen = cell.state;
                if self.seen != PENDING {
                    self.at = RegisterStep::Claim;
                }
            },
            RegisterStep::Claim => {
                if cell.state == self.seen {
                    cell.state = PENDING;
                    self.at = RegisterStep::Write;
                } else {
                    self.at = RegisterStep::Load;
                }
            },
            RegisterStep::Write => {
                cell.waker = self.waker.take();
                self.at = RegisterStep::Publish;
            },
            RegisterStep::Publish => {
                cell.state = REGISTERED;
                self.at = RegisterStep::Done;
            },
            RegisterStep::Done => {},
        }
    }
}

impl<W> AtomicWaker<W> {
    /// Registers a waker. If one is already registered, it is replaced.
    ///
    /// Nobody else may be writing: nobody else is there to finish.
    pub fn register(&mut self, waker: W)
        requires
            old(self).state != PENDING,
        ensures
            final(self).state == REGISTERED,
            final(self).waker == Some(waker),
    {
        let mut op = RegisterOp::start(waker);
        op.step(self);
        op.step(self);
        op.step(self);
        op.step(self);
    }

    /// Returns the waker if one is registered.
    pub fn take(&mut self) -> (r: Option<W>)
        ensures
            final(self).state == old(self).state,
            if old(self).state == REGISTERED {
                r == old(self).waker && final(self).waker is None
            } else {
                r is None && final(self).waker == old(self).waker
            },
    {
        if self.state == REGISTERED {
            self.waker.take()
        } else {
            None
        }
    }
}

/// A cell and the registrations in progress on it, each with the state that it
/// has read.
pub struct Crowd {
    pub state: usize,
    pub ops: Map<int, (RegisterStep, usize)>,
}

impl Crowd {
    /// Whether registration `id` has claimed the cell.
    pub open spec fn writes(self, id: int) -> bool {
        self.ops.dom().contains(id) && (self.ops[id].0 == RegisterStep::Write || self.ops[id].0
            == RegisterStep::Publish)
    }

    /// What always holds: the cell is pending exactly while someone has claimed
    /// it, and only one has.
    pub open spec fn consistent(self) -> bool {
        &&& self.state != PENDING ==> forall|id: int| !#[trigger] self.writes(id)
        &&& forall|a: int, b: int|
            #[trigger] self.writes(a) && #[trigger] self.writes(b) ==> a == b
        &&& forall|id: int|
            self.ops.dom().contains(id) && (#[trigger] self.ops[id]).0 == RegisterStep::Claim
                ==> self.ops[id].1 != PENDING
    }

    /// A registration begins.
    pub open spec fn join(self, id: int) -> Crowd {
        Crowd { ops: self.ops.insert(id, (RegisterStep::Load, UNREGISTERED)), ..self }
    }

    /// One step of a registration.
    pub open spec fn step(self, id: int) -> Crowd {
        let (at, seen, state) = register_next(self.ops[id].0, self.ops[id].1, self.state);
        Crowd { state, ops: self.ops.insert(id, (at, seen)) }
    }
}

/// However registrations begin and go on, at most one of them writes the waker
/// at any time.
pub proof fn at_most_one_registration_writes(c: Crowd, id: int)
    requires
        c.consistent(),
    ensures
        !c.ops.dom().contains(id) ==> c.join(id).consistent(),
        c.ops.dom().contains(id) ==> c.step(id).consistent(),
{
    if !c.ops.dom().contains(id) {
        let d = c.join(id);
        assert forall|k: int| #[trigger] d.writes(k) <==> c.writes(k) by {}
        assert forall|k: int|
            d.ops.dom().contains(k) && (#[trigger] d.ops[k]).0 == RegisterStep::Claim implies d.ops[k].1
            != PENDING by {
            assert(c.ops[k] == d.ops[k]);
        }
    } else {
        let d = c.step(id);
        assert forall|k: int| k != id implies #[trigger] d.writes(k) == c.writes(k) by {}
        if c.writes(id) {
            assert forall|k: int| #[trigger] d.writes(k) implies k == id by {
                if k != id {
                    assert(c.writes(k));
                }
            }
        }
        if d.writes(id) && !c.writes(id) {
            assert(c.state != PENDING);
            assert forall|k: int| #[trigger] d.writes(k) implies k == id by {
                if k != id {
                    assert(c.writes(k));
                }
            }
        }
        if d.state != PENDING {
            assert forall|k: int| !#[trigger] d.writes(k) by {
                if d.writes(k) && k != id {
                    assert(c.writes(k));
                }
            }
        }
        assert forall|k: int|
            d.ops.dom().contains(k) && (#[trigger] d.ops[k]).0 == RegisterStep::Claim implies d.ops[k].1
            != PENDING by {
            if k != id {
                assert(c.ops[k] == d.ops[k]);
            }
        }
    }
}

} // verus!

//! The tickets of a ring buffer.
//!
//! A [`Ledger`] is a ring buffer whose cursors and sequence numbers never
//! overflow, together with all the operations in progress on it. Its operations
//! advance one step at a time and in any order. In every order an item that was
//! given a ticket is handed out under this ticket exactly once, unchanged.

use crate::collections::ringbuffer;
use crate::num;
use vstd::arithmetic::div_mod::*;
use vstd::prelude::*;

verus! {

/// A cell of the buffer: the sequence number that tells whose turn it is, and
/// the item.
pub struct Cell<T> {
    pub sequence: int,
    pub data: Option<T>,
}

/// The contents of a ring buffer. The counter of items is a word; the cursors
/// count without end.
#[verifier::ext_equal]
pub struct Tape<T> {
    pub slots: Seq<Cell<T>>,
    pub cap: usize,
    pub len: usize,
    pub writer: int,
    pub reader: int,
}

/// Where a push stands. The ticket is the value of the write cursor that the
/// push has read.
pub enum PushPhase {
    CheckLen,
    LoadWriter,
    LoadSequence { ticket: int },
    Claim { ticket: int },
    Write { ticket: int },
    Publish { ticket: int },
    Count { ticket: int },
    Done,
}

/// A push in progress.
pub struct PushRun<T> {
    pub item: Option<T>,
    pub rounds: u8,
    pub at: PushPhase,
}

/// Where a pop stands. The ticket is the value of the read cursor that the pop
/// has read.
pub enum PopPhase {
    LoadReader,
    LoadSequence { ticket: int },
    Claim { ticket: int },
    Take { ticket: int },
    Recycle { ticket: int },
    Count { ticket: int },
    Done,
}

/// A pop in progress.
pub struct PopRun<T> {
    pub item: Option<T>,
    pub rounds: u8,
    pub at: PopPhase,
}

impl<T> PushRun<T> {
    /// Whether the push still holds its item exactly when it should.
    pub open spec fn wf(self) -> bool {
        &&& self.rounds <= ringbuffer::ROUNDS
        &&& self.at !is Done ==> self.rounds < ringbuffer::ROUNDS
        &&& self.item is Some <==> (self.at !is Publish && self.at !is Count && self.at !is Done)
    }

    /// A push of `item` that has not accessed anything yet.
    pub open spec fn start(item: T) -> PushRun<T> {
        PushRun { item: Some(item), rounds: 0, at: PushPhase::CheckLen }
    }
}

impl<T> PopRun<T> {
    /// Whether the pop holds an item only where it should.
    pub open spec fn wf(self) -> bool {
        &&& self.rounds <= ringbuffer::ROUNDS
        &&& self.at !is Done ==> self.rounds < ringbuffer::ROUNDS
        &&& self.item is Some ==> (self.at is Recycle || self.at is Count)
    }

    /// A pop that has not accessed anything yet.
    pub open spec fn start() -> PopRun<T> {
        PopRun { item: None, rounds: 0, at: PopPhase::LoadReader }
    }
}

impl<T> Tape<T> {
    /// The cell of a ticket.
    pub open spec fn cell_of(self, ticket: int) -> Cell<T> {
        self.slots[ticket % self.slots.len() as int]
    }

    /// The contents after the cell of a ticket has changed.
    pub open spec fn with_cell(self, ticket: int, cell: Cell<T>) -> Tape<T> {
        Tape { slots: self.slots.update(ticket % self.slots.len() as int, cell), ..self }
    }
}

/// What one step of a push makes of the buffer and of the push, and what the
/// push returns if the step ends it.
pub open spec fn push_next<T>(m: Tape<T>, op: PushRun<T>) -> (
    Tape<T>,
    PushRun<T>,
    Option<Result<(), ringbuffer::PushError<T>>>,
) {
    match op.at {
        PushPhase::CheckLen => if m.len == m.cap {
            (
                m,
                PushRun { item: None, at: PushPhase::Done, ..op },
                Some(Err(ringbuffer::PushError::Full(op.item->0))),
            )
        } else {
            (m, PushRun { at: PushPhase::LoadWriter, ..op }, None)
        },
        PushPhase::LoadWriter => (
            m,
            PushRun { at: PushPhase::LoadSequence { ticket: m.writer }, ..op },
            None,
        ),
        PushPhase::LoadSequence { ticket } => {
            let sequence = m.cell_of(ticket).sequence;
            if sequence == ticket {
                (m, PushRun { at: PushPhase::Claim { ticket }, ..op }, None)
            } else if sequence < ticket {
                (
                    m,
                    PushRun { item: None, at: PushPhase::Done, ..op },
                    Some(Err(ringbuffer::PushError::Full(op.item->0))),
                )
            } else {
                push_again(m, op)
            }
        },
        PushPhase::Claim { ticket } => if m.writer == ticket {
            (
                Tape { writer: ticket + 1, ..m },
                PushRun { at: PushPhase::Write { ticket }, ..op },
                None,
            )
        } else {
            push_again(m, op)
        },
        PushPhase::Write { ticket } => (
            m.with_cell(ticket, Cell { data: op.item, ..m.cell_of(ticket) }),
            PushRun { item: None, at: PushPhase::Publish { ticket }, ..op },
            None,
        ),
        PushPhase::Publish { ticket } => (
            m.with_cell(ticket, Cell { sequence: ticket + 1, ..m.cell_of(ticket) }),
            PushRun { at: PushPhase::Count { ticket }, ..op },
            None,
        ),
        PushPhase::Count { ticket } => (
            Tape { len: num::wrap(m.len + 1), ..m },
            PushRun { at: PushPhase::Done, ..op },
            Some(Ok(())),
        ),
        PushPhase::Done => (m, op, None),
    }
}

/// A push that lost a round: it starts over, unless this was its last round.
pub open spec fn push_again<T>(m: Tape<T>, op: PushRun<T>) -> (
    Tape<T>,
    PushRun<T>,
    Option<Result<(), ringbuffer::PushError<T>>>,
) {
    if op.rounds + 1 >= ringbuffer::ROUNDS {
        (
            m,
            PushRun { item: None, rounds: ringbuffer::ROUNDS, at: PushPhase::Done },
            Some(Err(ringbuffer::PushError::HighContention(op.item->0))),
        )
    } else {
        (m, PushRun { rounds: (op.rounds + 1) as u8, at: PushPhase::CheckLen, ..op }, None)
    }
}

/// What one step of a pop makes of the buffer and of the pop, and what the pop
/// returns if the step ends it.
pub open spec fn pop_next<T>(m: Tape<T>, op: PopRun<T>) -> (
    Tape<T>,
    PopRun<T>,
    Option<Result<Option<T>, ringbuffer::PopError>>,
) {
    match op.at {
        PopPhase::LoadReader => (
            m,
            PopRun { at: PopPhase::LoadSequence { ticket: m.reader }, ..op },
            None,
        ),
        PopPhase::LoadSequence { ticket } => {
            let sequence = m.cell_of(ticket).sequence;
            if sequence == ticket + 1 {
                (m, PopRun { at: PopPhase::Claim { ticket }, ..op }, None)
            } else if sequence < ticket + 1 {
                (m, PopRun { at: PopPhase::Done, ..op }, Some(Ok(None)))
            } else {
                pop_again(m, op)
            }
        },
        PopPhase::Claim { ticket } => if m.reader == ticket {
            (
                Tape { reader: ticket + 1, ..m },
                PopRun { at: PopPhase::Take { ticket }, ..op },
                None,
            )
        } else {
            pop_again(m, op)
        },
        PopPhase::Take { ticket } => (
            m.with_cell(ticket, Cell { data: None, ..m.cell_of(ticket) }),
            PopRun { item: m.cell_of(ticket).data, at: PopPhase::Recycle { ticket }, ..op },
            None,
        ),
        PopPhase::Recycle { ticket } => (
            m.with_cell(
                ticket,
                Cell { sequence: ticket + m.slots.len(), ..m.cell_of(ticket) },
            ),
            PopRun { at: PopPhase::Count { ticket }, ..op },
            None,
        ),
        PopPhase::Count { ticket } => (
            Tape { len: num::wrap(m.len - 1), ..m },
            PopRun { item: None, at: PopPhase::Done, ..op },
            Some(Ok(op.item)),
        ),
        PopPhase::Done => (m, op, None),
    }
}

/// A pop that lost a round: it starts over, unless this was its last round.
pub open spec fn pop_again<T>(m: Tape<T>, op: PopRun<T>) -> (
    Tape<T>,
    PopRun<T>,
    Option<Result<Option<T>, ringbuffer::PopError>>,
) {
    if op.rounds + 1 >= ringbuffer::ROUNDS {
        (
            m,
            PopRun { rounds: ringbuffer::ROUNDS, at: PopPhase::Done, ..op },
            Some(Err(ringbuffer::PopError::HighContention)),
        )
    } else {
        (m, PopRun { rounds: (op.rounds + 1) as u8, at: PopPhase::LoadReader, ..op }, None)
    }
}

/// A ring buffer and the operations in progress on it.
#[verifier::reject_recursive_types(T)]
pub struct Ledger<T> {
    pub tape: Tape<T>,
    /// The pushes in progress, by caller.
    pub pushes: Map<int, PushRun<T>>,
    /// The pops in progress, by caller.
    pub pops: Map<int, PopRun<T>>,
    /// The item of every ticket that a push has claimed.
    pub issued: Seq<T>,
    /// The item that was handed out for a ticket, where a pop has returned it.
    pub delivered: Map<int, T>,
    /// The ticket that every slot currently serves.
    pub laps: Seq<int>,
}

/// The ticket that a push has claimed, if it has claimed one.
pub open spec fn push_ticket<T>(op: PushRun<T>) -> Option<int> {
    match op.at {
        PushPhase::Write { ticket } => Some(ticket),
        PushPhase::Publish { ticket } => Some(ticket),
        PushPhase::Count { ticket } => Some(ticket),
        _ => None,
    }
}

/// The ticket that a pop has claimed, if it has claimed one.
pub open spec fn pop_ticket<T>(op: PopRun<T>) -> Option<int> {
    match op.at {
        PopPhase::Take { ticket } => Some(ticket),
        PopPhase::Recycle { ticket } => Some(ticket),
        PopPhase::Count { ticket } => Some(ticket),
        _ => None,
    }
}

impl<T> Ledger<T> {
    /// A fresh ring buffer that nobody uses yet.
    pub open spec fn start(slots: nat, cap: usize) -> Ledger<T> {
        Ledger {
            tape: Tape {
                slots: Seq::new(slots, |i: int| Cell { sequence: i, data: None }),
                cap,
                len: 0,
                writer: 0,
                reader: 0,
            },
            pushes: Map::empty(),
            pops: Map::empty(),
            issued: Seq::empty(),
            delivered: Map::empty(),
            laps: Seq::new(slots, |i: int| i),
        }
    }

    /// `who` begins to push `item`.
    pub open spec fn start_push(self, who: int, item: T) -> Ledger<T> {
        Ledger { pushes: self.pushes.insert(who, PushRun::start(item)), ..self }
    }

    /// `who` begins to pop.
    pub open spec fn start_pop(self, who: int) -> Ledger<T> {
        Ledger { pops: self.pops.insert(who, PopRun::<T>::start()), ..self }
    }

    /// The push of `who` performs its next step.
    pub open spec fn step_push(self, who: int) -> Ledger<T> {
        let op = self.pushes[who];
        let (tape, next, out) = push_next(self.tape, op);
        Ledger {
            tape,
            pushes: if out is Some {
                self.pushes.remove(who)
            } else {
                self.pushes.insert(who, next)
            },
            issued: if op.at is Claim && next.at is Write {
                self.issued.push(op.item->0)
            } else {
                self.issued
            },
            ..self
        }
    }

    /// The pop of `who` performs its next step.
    pub open spec fn step_pop(self, who: int) -> Ledger<T> {
        let op = self.pops[who];
        let (tape, next, out) = pop_next(self.tape, op);
        Ledger {
            tape,
            pops: if out is Some {
                self.pops.remove(who)
            } else {
                self.pops.insert(who, next)
            },
            delivered: match op.at {
                PopPhase::Count { ticket } => self.delivered.insert(ticket, op.item->0),
                _ => self.delivered,
            },
            laps: match op.at {
                PopPhase::Recycle { ticket } => self.laps.update(
                    ticket % self.n(),
                    ticket + self.tape.slots.len(),
                ),
                _ => self.laps,
            },
            ..self
        }
    }

    /// Number of slots.
    pub open spec fn n(self) -> int {
        self.tape.slots.len() as int
    }

    /// The push of `who` has claimed `ticket` and not published it yet.
    pub open spec fn writing(self, who: int, ticket: int) -> bool {
        &&& self.pushes.contains_key(who)
        &&& self.pushes[who].at !is Count
        &&& push_ticket(self.pushes[who]) == Some(ticket)
    }

    /// The pop of `who` has claimed `ticket` and not recycled its slot yet.
    pub open spec fn taking(self, who: int, ticket: int) -> bool {
        &&& self.pops.contains_key(who)
        &&& self.pops[who].at !is Count
        &&& pop_ticket(self.pops[who]) == Some(ticket)
    }

    /// The pop of `who` has claimed `ticket` and not returned yet.
    pub open spec fn carrying(self, who: int, ticket: int) -> bool {
        self.pops.contains_key(who) && pop_ticket(self.pops[who]) == Some(ticket)
    }

    /// What the slot `i` looks like.
    pub open spec fn cell_ok(self, i: int) -> bool {
        let lap = self.laps[i];
        let cell = self.tape.slots[i];
        &&& 0 <= lap
        &&& lap % self.n() == i
        &&& lap < self.tape.writer + self.n()
        &&& self.tape.writer <= lap + self.n()
        &&& if lap >= self.tape.writer {
            cell.sequence == lap && cell.data is None
        } else if lap >= self.tape.reader {
            ||| cell.sequence == lap && exists|who: int| #[trigger] self.writing(who, lap)
            ||| cell.sequence == lap + 1 && cell.data == Some(self.issued[lap])
        } else {
            cell.sequence == lap + 1 && exists|who: int| #[trigger] self.taking(who, lap)
        }
    }

    /// What a push in progress knows.
    pub open spec fn push_ok(self, op: PushRun<T>) -> bool {
        let n = self.n();
        &&& op.wf()
        &&& match op.at {
            PushPhase::LoadSequence { ticket } => 0 <= ticket <= self.tape.writer,
            PushPhase::Claim { ticket } => {
                &&& 0 <= ticket <= self.tape.writer
                &&& ticket == self.tape.writer ==> self.laps[ticket % n] == ticket
            },
            PushPhase::Write { ticket } => {
                &&& 0 <= ticket < self.tape.writer
                &&& self.laps[ticket % n] == ticket
                &&& self.tape.slots[ticket % n].sequence == ticket
                &&& self.tape.slots[ticket % n].data is None
                &&& op.item == Some(self.issued[ticket])
            },
            PushPhase::Publish { ticket } => {
                &&& 0 <= ticket < self.tape.writer
                &&& self.laps[ticket % n] == ticket
                &&& self.tape.slots[ticket % n].sequence == ticket
                &&& self.tape.slots[ticket % n].data == Some(self.issued[ticket])
            },
            PushPhase::Count { ticket } => 0 <= ticket < self.tape.writer,
            PushPhase::Done => false,
            _ => true,
        }
    }

    /// What a pop in progress knows.
    pub open spec fn pop_ok(self, op: PopRun<T>) -> bool {
        let n = self.n();
        &&& op.wf()
        &&& match op.at {
            PopPhase::LoadSequence { ticket } => 0 <= ticket <= self.tape.reader,
            PopPhase::Claim { ticket } => {
                &&& 0 <= ticket <= self.tape.reader
                &&& ticket == self.tape.reader ==> {
                    &&& ticket < self.tape.writer
                    &&& self.laps[ticket % n] == ticket
                    &&& self.tape.slots[ticket % n].sequence == ticket + 1
                }
            },
            PopPhase::Take { ticket } => {
                &&& 0 <= ticket < self.tape.reader
                &&& self.laps[ticket % n] == ticket
                &&& self.tape.slots[ticket % n].data == Some(self.issued[ticket])
            },
            PopPhase::Recycle { ticket } => {
                &&& 0 <= ticket < self.tape.reader
                &&& self.laps[ticket % n] == ticket
                &&& self.tape.slots[ticket % n].data is None
                &&& op.item == Some(self.issued[ticket])
            },
            PopPhase::Count { ticket } => {
                &&& 0 <= ticket < self.tape.reader
                &&& op.item == Some(self.issued[ticket])
            },
            PopPhase::Done => false,
            _ => true,
        }
    }

    /// The callers whose push has claimed a ticket but is not counted yet.
    pub open spec fn uncounted_pushes(self) -> Set<int> {
        self.pushes.dom().filter(|who: int| push_ticket(self.pushes[who]) is Some)
    }

    /// The callers whose pop has claimed a ticket but is not counted yet.
    pub open spec fn uncounted_pops(self) -> Set<int> {
        self.pops.dom().filter(|who: int| pop_ticket(self.pops[who]) is Some)
    }

    /// The shape of the tape.
    pub open spec fn shaped(self) -> bool {
        &&& num::power_of_two(self.n())
        &&& 2 <= self.n() <= num::largest_power()
        &&& 0 <= self.tape.reader <= self.tape.writer
        &&& self.issued.len() == self.tape.writer
        &&& self.laps.len() == self.n()
        &&& self.pushes.dom().finite()
        &&& self.pops.dom().finite()
    }

    /// Every ticket that is claimed by a push and not by a pop is served by its
    /// slot.
    pub open spec fn window_ok(self) -> bool {
        forall|t: int|
            self.tape.reader <= t < self.tape.writer ==> #[trigger] self.laps[t % self.n()] == t
    }

    /// No ticket is claimed twice.
    pub open spec fn tickets_distinct(self) -> bool {
        &&& forall|a: int, b: int| #![trigger self.pushes[a], self.pushes[b]]
            self.pushes.contains_key(a) && self.pushes.contains_key(b) && a != b && push_ticket(
                self.pushes[a],
            ) is Some ==> push_ticket(self.pushes[a]) != push_ticket(self.pushes[b])
        &&& forall|a: int, b: int| #![trigger self.pops[a], self.pops[b]]
            self.pops.contains_key(a) && self.pops.contains_key(b) && a != b && pop_ticket(
                self.pops[a],
            ) is Some ==> pop_ticket(self.pops[a]) != pop_ticket(self.pops[b])
    }

    /// What has been handed out: only claimed tickets, each with its own item,
    /// and every claimed ticket that no pop still carries.
    pub open spec fn delivery_ok(self) -> bool {
        &&& forall|t: int| #[trigger]
            self.delivered.contains_key(t) ==> 0 <= t < self.tape.reader && self.delivered[t]
                == self.issued[t] && forall|who: int| !#[trigger] self.carrying(who, t)
        &&& forall|t: int| 0 <= t < self.tape.reader && !#[trigger]
            self.delivered.contains_key(t) ==> exists|who: int| #[trigger] self.carrying(who, t)
    }

    /// The counter of items lags behind the cursors by the operations that are
    /// not counted yet.
    pub open spec fn len_ok(self) -> bool {
        self.tape.len == num::wrap(
            self.tape.writer - self.tape.reader - self.uncounted_pushes().len()
                + self.uncounted_pops().len(),
        )
    }

    /// What holds at every moment.
    pub open spec fn consistent(self) -> bool {
        &&& self.shaped()
        &&& forall|i: int| 0 <= i < self.n() ==> #[trigger] self.cell_ok(i)
        &&& self.window_ok()
        &&& forall|who: int| #[trigger]
            self.pushes.contains_key(who) ==> self.push_ok(self.pushes[who])
        &&& forall|who: int| #[trigger]
            self.pops.contains_key(who) ==> self.pop_ok(self.pops[who])
        &&& self.tickets_distinct()
        &&& self.delivery_ok()
        &&& self.len_ok()
    }
}

/// Facts on the slots of tickets.
proof fn lemma_slot<T>(w: Ledger<T>, t: int)
    requires
        w.shaped(),
        0 <= t,
    ensures
        0 <= t % w.n() < w.n(),
        (t + 1) % w.n() != t % w.n(),
        (t + w.n()) % w.n() == t % w.n(),
{
    lemma_mod_bound(t, w.n());
    ringbuffer::lemma_distinct_slots(t, 1, 0, w.n());
    lemma_mod_add_multiples_vanish(t, w.n());
}

/// A fresh ring buffer is consistent.
pub proof fn fresh_ledger_is_consistent<T>(slots: nat, cap: usize)
    requires
        num::power_of_two(slots as int),
        2 <= slots <= num::largest_power(),
    ensures
        Ledger::<T>::start(slots, cap).consistent(),
{
    let w = Ledger::<T>::start(slots, cap);
    num::lemma_wrap(0);
    num::lemma_word_count();
    assert forall|i: int| 0 <= i < w.n() implies #[trigger] w.cell_ok(i) by {
        lemma_small_mod(i as nat, w.n() as nat);
    }
    assert(w.uncounted_pushes() =~= Set::empty());
    assert(w.uncounted_pops() =~= Set::empty());
}

/// Delivery depends on the pops, the tickets and the issued items only.
proof fn lemma_delivery_unchanged<T>(w: Ledger<T>, v: Ledger<T>)
    requires
        w.delivery_ok(),
        v.pops == w.pops,
        v.delivered == w.delivered,
        v.tape.reader == w.tape.reader,
        v.tape.reader <= w.issued.len() <= v.issued.len(),
        forall|t: int| 0 <= t < w.issued.len() ==> v.issued[t] == w.issued[t],
    ensures
        v.delivery_ok(),
{
    assert forall|t: int| #[trigger] v.delivered.contains_key(t) implies 0 <= t < v.tape.reader
        && v.delivered[t] == v.issued[t] && forall|who: int| !#[trigger] v.carrying(who, t) by {
        assert(w.delivered.contains_key(t));
        assert forall|who: int| !#[trigger] v.carrying(who, t) by {
            assert(!w.carrying(who, t));
        }
    }
    assert forall|t: int|
        0 <= t < v.tape.reader && !#[trigger] v.delivered.contains_key(t) implies exists|who: int|
     #[trigger] v.carrying(who, t) by {
        assert(!w.delivered.contains_key(t));
        let who = choose|who: int| #[trigger] w.carrying(who, t);
        assert(v.carrying(who, t));
    }
}

/// A change of one push that holds no ticket, before or after.
proof fn lemma_push_without_ticket<T>(w: Ledger<T>, v: Ledger<T>, who: int)
    requires
        w.consistent(),
        v == (Ledger { pushes: v.pushes, ..w }),
        v.pushes.remove(who) == w.pushes.remove(who),
        v.pushes.dom().finite(),
        w.pushes.contains_key(who) ==> push_ticket(w.pushes[who]) is None,
        v.pushes.contains_key(who) ==> push_ticket(v.pushes[who]) is None && w.push_ok(
            v.pushes[who],
        ),
    ensures
        v.consistent(),
{
    assert forall|p: int| p != who implies (#[trigger] v.pushes.contains_key(p) <==> w.pushes.contains_key(
        p,
    )) && (v.pushes.contains_key(p) ==> v.pushes[p] == w.pushes[p]) by {
        let rest = w.pushes.remove(who);
        assert(rest.dom().contains(p) == w.pushes.dom().contains(p));
        assert(rest.dom().contains(p) == v.pushes.dom().contains(p));
        if rest.dom().contains(p) {
            assert(rest[p] == v.pushes[p]);
        }
    }
    assert forall|i: int| 0 <= i < v.n() implies #[trigger] v.cell_ok(i) by {
        assert(w.cell_ok(i));
        let lap = w.laps[i];
        if exists|p: int| #[trigger] w.writing(p, lap) {
            let p = choose|p: int| #[trigger] w.writing(p, lap);
            assert(v.pushes.contains_key(p));
            assert(v.writing(p, lap));
        }
        if exists|p: int| #[trigger] w.taking(p, lap) {
            let p = choose|p: int| #[trigger] w.taking(p, lap);
            assert(v.taking(p, lap));
        }
    }
    assert(v.uncounted_pushes() =~= w.uncounted_pushes()) by {
        assert forall|p: int| v.uncounted_pushes().contains(p)
            == w.uncounted_pushes().contains(p) by {
            if p != who {
                assert(v.pushes.contains_key(p) == w.pushes.contains_key(p));
            }
        }
    }
    assert(v.uncounted_pops() =~= w.uncounted_pops());
    assert forall|p: int| #[trigger] v.pushes.contains_key(p) implies v.push_ok(v.pushes[p]) by {
        if p != who {
            assert(w.pushes.contains_key(p));
        }
    }
    assert forall|p: int| #[trigger] v.pops.contains_key(p) implies v.pop_ok(v.pops[p]) by {
        assert(w.pops.contains_key(p));
    }
    assert(v.tickets_distinct()) by {
        assert forall|a: int, b: int| #![trigger v.pushes[a], v.pushes[b]]
            v.pushes.contains_key(a) && v.pushes.contains_key(b) && a != b && push_ticket(
                v.pushes[a],
            ) is Some implies push_ticket(v.pushes[a]) != push_ticket(v.pushes[b]) by {
            assert(w.pushes.contains_key(a));
            if b != who {
                assert(w.pushes.contains_key(b));
                assert(push_ticket(w.pushes[a]) != push_ticket(w.pushes[b]));
            }
        }
        assert(v.pops == w.pops);
    }
    lemma_delivery_unchanged(w, v);
}

/// A change of one pop that holds no ticket, before or after.
proof fn lemma_pop_without_ticket<T>(w: Ledger<T>, v: Ledger<T>, who: int)
    requires
        w.consistent(),
        v == (Ledger { pops: v.pops, ..w }),
        v.pops.remove(who) == w.pops.remove(who),
        v.pops.dom().finite(),
        w.pops.contains_key(who) ==> pop_ticket(w.pops[who]) is None,
        v.pops.contains_key(who) ==> pop_ticket(v.pops[who]) is None && w.pop_ok(v.pops[who]),
    ensures
        v.consistent(),
{
    assert forall|p: int| p != who implies (#[trigger] v.pops.contains_key(p) <==> w.pops.contains_key(
        p,
    )) && (v.pops.contains_key(p) ==> v.pops[p] == w.pops[p]) by {
        let rest = w.pops.remove(who);
        assert(rest.dom().contains(p) == w.pops.dom().contains(p));
        assert(rest.dom().contains(p) == v.pops.dom().contains(p));
        if rest.dom().contains(p) {
            assert(rest[p] == v.pops[p]);
        }
    }
    assert forall|i: int| 0 <= i < v.n() implies #[trigger] v.cell_ok(i) by {
        assert(w.cell_ok(i));
        let lap = w.laps[i];
        if exists|p: int| #[trigger] w.writing(p, lap) {
            let p = choose|p: int| #[trigger] w.writing(p, lap);
            assert(v.writing(p, lap));
        }
        if exists|p: int| #[trigger] w.taking(p, lap) {
            let p = choose|p: int| #[trigger] w.taking(p, lap);
            assert(v.pops.contains_key(p));
            assert(v.taking(p, lap));
        }
    }
    assert(v.uncounted_pushes() =~= w.uncounted_pushes());
    assert(v.uncounted_pops() =~= w.uncounted_pops()) by {
        assert forall|p: int| v.uncounted_pops().contains(p) == w.uncounted_pops().contains(p) by {
            if p != who {
                assert(v.pops.contains_key(p) == w.pops.contains_key(p));
            }
        }
    }
    assert forall|p: int| #[trigger] v.pushes.contains_key(p) implies v.push_ok(v.pushes[p]) by {
        assert(w.pushes.contains_key(p));
    }
    assert forall|p: int| #[trigger] v.pops.contains_key(p) implies v.pop_ok(v.pops[p]) by {
        if p != who {
            assert(w.pops.contains_key(p));
        }
    }
    assert(v.tickets_distinct()) by {
        assert forall|a: int, b: int| #![trigger v.pops[a], v.pops[b]]
            v.pops.contains_key(a) && v.pops.contains_key(b) && a != b && pop_ticket(
                v.pops[a],
            ) is Some implies pop_ticket(v.pops[a]) != pop_ticket(v.pops[b]) by {
            assert(w.pops.contains_key(a));
            if b != who {
                assert(w.pops.contains_key(b));
                assert(pop_ticket(w.pops[a]) != pop_ticket(w.pops[b]));
            }
        }
        assert(v.pushes == w.pushes);
    }
    assert forall|t: int, p: int| #[trigger] v.carrying(p, t) == w.carrying(p, t) by {
        if p != who {
            assert(v.pops.contains_key(p) == w.pops.contains_key(p));
        }
    }
    assert(v.delivery_ok()) by {
        assert forall|t: int| #[trigger] v.delivered.contains_key(t) implies 0 <= t
            < v.tape.reader && v.delivered[t] == v.issued[t] && forall|p: int|
         !#[trigger] v.carrying(p, t) by {
            assert(w.delivered.contains_key(t));
            assert forall|p: int| !#[trigger] v.carrying(p, t) by {
                assert(!w.carrying(p, t));
            }
        }
        assert forall|t: int|
            0 <= t < v.tape.reader && !#[trigger] v.delivered.contains_key(t) implies exists|p:
            int| #[trigger] v.carrying(p, t) by {
            assert(!w.delivered.contains_key(t));
            let p = choose|p: int| #[trigger] w.carrying(p, t);
            assert(v.carrying(p, t));
        }
    }
}

/// Beginning a push keeps everything consistent.
pub proof fn start_push_keeps_consistent<T>(w: Ledger<T>, who: int, item: T)
    requires
        w.consistent(),
        !w.pushes.contains_key(who),
    ensures
        w.start_push(who, item).consistent(),
{
    let v = w.start_push(who, item);
    assert(v.pushes.remove(who) =~= w.pushes.remove(who));
    lemma_push_without_ticket(w, v, who);
}

/// Beginning a pop keeps everything consistent.
pub proof fn start_pop_keeps_consistent<T>(w: Ledger<T>, who: int)
    requires
        w.consistent(),
        !w.pops.contains_key(who),
    ensures
        w.start_pop(who).consistent(),
{
    let v = w.start_pop(who);
    assert(v.pops.remove(who) =~= w.pops.remove(who));
    lemma_pop_without_ticket(w, v, who);
}

/// A push claims the ticket under the write cursor.
proof fn lemma_push_claims<T>(w: Ledger<T>, who: int)
    requires
        w.consistent(),
        w.pushes.contains_key(who),
        w.pushes[who].at == (PushPhase::Claim { ticket: w.tape.writer }),
    ensures
        w.step_push(who).consistent(),
{
    let v = w.step_push(who);
    let t = w.tape.writer;
    let n = w.n();
    let op = w.pushes[who];
    lemma_slot(w, t);
    assert(w.push_ok(op));
    assert(v.pushes[who] == (PushRun { at: PushPhase::Write { ticket: t }, ..op }));
    assert(w.cell_ok(t % n));
    assert forall|i: int| 0 <= i < n implies #[trigger] v.cell_ok(i) by {
        assert(w.cell_ok(i));
        let lap = w.laps[i];
        if i == t % n {
            assert(v.writing(who, t));
        } else {
            if lap + n == t {
                lemma_slot(w, lap);
            }
            if exists|p: int| #[trigger] w.writing(p, lap) {
                let p = choose|p: int| #[trigger] w.writing(p, lap);
                assert(v.writing(p, lap));
            }
            if exists|p: int| #[trigger] w.taking(p, lap) {
                let p = choose|p: int| #[trigger] w.taking(p, lap);
                assert(v.taking(p, lap));
            }
        }
    }
    assert forall|p: int| #[trigger] v.pushes.contains_key(p) implies v.push_ok(v.pushes[p]) by {
        if p != who {
            assert(w.pushes.contains_key(p));
            assert(w.push_ok(w.pushes[p]));
        }
    }
    assert forall|p: int| #[trigger] v.pops.contains_key(p) implies v.pop_ok(v.pops[p]) by {
        assert(w.pops.contains_key(p));
        assert(w.pop_ok(w.pops[p]));
    }
    assert(v.tickets_distinct()) by {
        assert forall|a: int, b: int| #![trigger v.pushes[a], v.pushes[b]]
            v.pushes.contains_key(a) && v.pushes.contains_key(b) && a != b && push_ticket(
                v.pushes[a],
            ) is Some implies push_ticket(v.pushes[a]) != push_ticket(v.pushes[b]) by {
            assert(w.pushes.contains_key(a));
            assert(w.pushes.contains_key(b));
            assert(w.push_ok(w.pushes[a]));
            assert(w.push_ok(w.pushes[b]));
            if a != who && b != who {
                assert(push_ticket(w.pushes[a]) != push_ticket(w.pushes[b]));
            }
        }
        assert(v.pops == w.pops);
    }
    lemma_delivery_unchanged(w, v);
    assert(v.uncounted_pushes() =~= w.uncounted_pushes().insert(who));
    assert(v.uncounted_pops() =~= w.uncounted_pops());
}

/// A push that holds a ticket goes on to its next step.
proof fn lemma_push_with_ticket<T>(w: Ledger<T>, who: int)
    requires
        w.consistent(),
        w.pushes.contains_key(who),
        w.pushes[who].at is Write || w.pushes[who].at is Publish,
    ensures
        w.step_push(who).consistent(),
{
    let v = w.step_push(who);
    let n = w.n();
    let op = w.pushes[who];
    let t = push_ticket(op)->0;
    lemma_slot(w, t);
    assert(w.push_ok(op));
    assert(w.cell_ok(t % n));
    assert forall|i: int| 0 <= i < n implies #[trigger] v.cell_ok(i) by {
        assert(w.cell_ok(i));
        let lap = w.laps[i];
        if i == t % n {
            if op.at is Write {
                assert(v.writing(who, t));
            }
        } else {
            if exists|p: int| #[trigger] w.writing(p, lap) {
                let p = choose|p: int| #[trigger] w.writing(p, lap);
                assert(v.writing(p, lap));
            }
            if exists|p: int| #[trigger] w.taking(p, lap) {
                let p = choose|p: int| #[trigger] w.taking(p, lap);
                assert(v.taking(p, lap));
            }
        }
    }
    assert forall|p: int| #[trigger] v.pushes.contains_key(p) implies v.push_ok(v.pushes[p]) by {
        if p != who {
            assert(w.pushes.contains_key(p));
            assert(w.push_ok(w.pushes[p]));
            assert(push_ticket(w.pushes[who]) != push_ticket(w.pushes[p]));
        }
    }
    assert forall|p: int| #[trigger] v.pops.contains_key(p) implies v.pop_ok(v.pops[p]) by {
        assert(w.pops.contains_key(p));
        assert(w.pop_ok(w.pops[p]));
    }
    assert(v.tickets_distinct()) by {
        assert forall|a: int, b: int| #![trigger v.pushes[a], v.pushes[b]]
            v.pushes.contains_key(a) && v.pushes.contains_key(b) && a != b && push_ticket(
                v.pushes[a],
            ) is Some implies push_ticket(v.pushes[a]) != push_ticket(v.pushes[b]) by {
            assert(push_ticket(w.pushes[a]) != push_ticket(w.pushes[b]));
        }
        assert(v.pops == w.pops);
    }
    lemma_delivery_unchanged(w, v);
    assert(v.uncounted_pushes() =~= w.uncounted_pushes());
    assert(v.uncounted_pops() =~= w.uncounted_pops());
}

/// A push is counted and returns.
proof fn lemma_push_returns<T>(w: Ledger<T>, who: int)
    requires
        w.consistent(),
        w.pushes.contains_key(who),
        w.pushes[who].at is Count,
    ensures
        w.step_push(who).consistent(),
{
    let v = w.step_push(who);
    let n = w.n();
    assert forall|i: int| 0 <= i < n implies #[trigger] v.cell_ok(i) by {
        assert(w.cell_ok(i));
        let lap = w.laps[i];
        if exists|p: int| #[trigger] w.writing(p, lap) {
            let p = choose|p: int| #[trigger] w.writing(p, lap);
            assert(v.writing(p, lap));
        }
        if exists|p: int| #[trigger] w.taking(p, lap) {
            let p = choose|p: int| #[trigger] w.taking(p, lap);
            assert(v.taking(p, lap));
        }
    }
    assert forall|p: int| #[trigger] v.pushes.contains_key(p) implies v.push_ok(v.pushes[p]) by {
        assert(w.pushes.contains_key(p));
    }
    assert forall|p: int| #[trigger] v.pops.contains_key(p) implies v.pop_ok(v.pops[p]) by {
        assert(w.pops.contains_key(p));
    }
    assert(v.tickets_distinct()) by {
        assert forall|a: int, b: int| #![trigger v.pushes[a], v.pushes[b]]
            v.pushes.contains_key(a) && v.pushes.contains_key(b) && a != b && push_ticket(
                v.pushes[a],
            ) is Some implies push_ticket(v.pushes[a]) != push_ticket(v.pushes[b]) by {
            assert(push_ticket(w.pushes[a]) != push_ticket(w.pushes[b]));
        }
        assert(v.pops == w.pops);
    }
    lemma_delivery_unchanged(w, v);
    assert(w.uncounted_pushes().contains(who));
    assert(v.uncounted_pushes() =~= w.uncounted_pushes().remove(who));
    assert(v.uncounted_pops() =~= w.uncounted_pops());
    num::lemma_wrap_add(
        w.tape.writer - w.tape.reader - w.uncounted_pushes().len() + w.uncounted_pops().len(),
        1,
    );
}

/// Every step of every push keeps everything consistent.
pub proof fn step_push_keeps_consistent<T>(w: Ledger<T>, who: int)
    requires
        w.consistent(),
        w.pushes.contains_key(who),
    ensures
        w.step_push(who).consistent(),
{
    let v = w.step_push(who);
    let op = w.pushes[who];
    assert(w.push_ok(op));
    match op.at {
        PushPhase::Write { .. } => lemma_push_with_ticket(w, who),
        PushPhase::Publish { .. } => lemma_push_with_ticket(w, who),
        PushPhase::Count { .. } => lemma_push_returns(w, who),
        PushPhase::Claim { ticket } if ticket == w.tape.writer => {
            lemma_push_claims(w, who);
        },
        _ => {
            assert(v.pushes.remove(who) =~= w.pushes.remove(who));
            if let PushPhase::LoadSequence { ticket } = op.at {
                let t = ticket;
                lemma_slot(w, t);
                assert(w.cell_ok(t % w.n()));
                if t == w.tape.writer && w.tape.slots[t % w.n()].sequence == t {
                    let lap = w.laps[t % w.n()];
                    if lap + 1 == t {
                        lemma_slot(w, lap);
                    }
                }
            }
            lemma_push_without_ticket(w, v, who);
        },
    }
}

/// A pop claims the ticket under the read cursor.
proof fn lemma_pop_claims<T>(w: Ledger<T>, who: int)
    requires
        w.consistent(),
        w.pops.contains_key(who),
        w.pops[who].at == (PopPhase::Claim { ticket: w.tape.reader }),
    ensures
        w.step_pop(who).consistent(),
{
    let v = w.step_pop(who);
    let t = w.tape.reader;
    let n = w.n();
    let op = w.pops[who];
    lemma_slot(w, t);
    assert(w.pop_ok(op));
    assert(v.pops[who] == (PopRun { at: PopPhase::Take { ticket: t }, ..op }));
    assert(w.cell_ok(t % n));
    assert forall|i: int| 0 <= i < n implies #[trigger] v.cell_ok(i) by {
        assert(w.cell_ok(i));
        let lap = w.laps[i];
        if i == t % n {
            assert(v.taking(who, t));
        } else {
            if exists|p: int| #[trigger] w.writing(p, lap) {
                let p = choose|p: int| #[trigger] w.writing(p, lap);
                assert(v.writing(p, lap));
            }
            if exists|p: int| #[trigger] w.taking(p, lap) {
                let p = choose|p: int| #[trigger] w.taking(p, lap);
                assert(v.taking(p, lap));
            }
        }
    }
    assert forall|p: int| #[trigger] v.pushes.contains_key(p) implies v.push_ok(v.pushes[p]) by {
        assert(w.pushes.contains_key(p));
        assert(w.push_ok(w.pushes[p]));
    }
    assert forall|p: int| #[trigger] v.pops.contains_key(p) implies v.pop_ok(v.pops[p]) by {
        if p != who {
            assert(w.pops.contains_key(p));
            assert(w.pop_ok(w.pops[p]));
        }
    }
    assert(v.tickets_distinct()) by {
        assert forall|a: int, b: int| #![trigger v.pops[a], v.pops[b]]
            v.pops.contains_key(a) && v.pops.contains_key(b) && a != b && pop_ticket(
                v.pops[a],
            ) is Some implies pop_ticket(v.pops[a]) != pop_ticket(v.pops[b]) by {
            assert(w.pops.contains_key(a));
            assert(w.pops.contains_key(b));
            assert(w.pop_ok(w.pops[a]));
            assert(w.pop_ok(w.pops[b]));
            if a != who && b != who {
                assert(pop_ticket(w.pops[a]) != pop_ticket(w.pops[b]));
            }
        }
        assert(v.pushes == w.pushes);
    }
    assert(v.delivery_ok()) by {
        assert forall|x: int| #[trigger] v.delivered.contains_key(x) implies 0 <= x
            < v.tape.reader && v.delivered[x] == v.issued[x] && forall|p: int|
         !#[trigger] v.carrying(p, x) by {
            assert(w.delivered.contains_key(x));
            assert forall|p: int| !#[trigger] v.carrying(p, x) by {
                assert(!w.carrying(p, x));
            }
        }
        assert forall|x: int|
            0 <= x < v.tape.reader && !#[trigger] v.delivered.contains_key(x) implies exists|p:
            int| #[trigger] v.carrying(p, x) by {
            assert(!w.delivered.contains_key(x));
            if x == t {
                assert(v.carrying(who, x));
            } else {
                let p = choose|p: int| #[trigger] w.carrying(p, x);
                assert(v.carrying(p, x));
            }
        }
    }
    assert(v.uncounted_pops() =~= w.uncounted_pops().insert(who));
    assert(v.uncounted_pushes() =~= w.uncounted_pushes());
}

/// A pop that holds a ticket goes on to its next step.
proof fn lemma_pop_with_ticket<T>(w: Ledger<T>, who: int)
    requires
        w.consistent(),
        w.pops.contains_key(who),
        w.pops[who].at is Take || w.pops[who].at is Recycle,
    ensures
        w.step_pop(who).consistent(),
{
    let v = w.step_pop(who);
    let n = w.n();
    let op = w.pops[who];
    let t = pop_ticket(op)->0;
    lemma_slot(w, t);
    assert(w.pop_ok(op));
    assert(w.cell_ok(t % n));
    assert forall|i: int| 0 <= i < n implies #[trigger] v.cell_ok(i) by {
        assert(w.cell_ok(i));
        let lap = w.laps[i];
        if i == t % n {
            if op.at is Take {
                assert(v.taking(who, t));
            }
        } else {
            if exists|p: int| #[trigger] w.writing(p, lap) {
                let p = choose|p: int| #[trigger] w.writing(p, lap);
                assert(v.writing(p, lap));
            }
            if exists|p: int| #[trigger] w.taking(p, lap) {
                let p = choose|p: int| #[trigger] w.taking(p, lap);
                assert(v.taking(p, lap));
            }
        }
    }
    assert(v.window_ok()) by {
        assert forall|x: int| v.tape.reader <= x < v.tape.writer implies #[trigger] v.laps[x
            % v.n()] == x by {
            assert(w.laps[x % n] == x);
        }
    }
    assert forall|p: int| #[trigger] v.pushes.contains_key(p) implies v.push_ok(v.pushes[p]) by {
        assert(w.pushes.contains_key(p));
        assert(w.push_ok(w.pushes[p]));
        if let PushPhase::Claim { ticket } = w.pushes[p].at {
            if ticket == w.tape.writer {
                lemma_slot(w, ticket);
            }
        }
    }
    assert forall|p: int| #[trigger] v.pops.contains_key(p) implies v.pop_ok(v.pops[p]) by {
        if p != who {
            assert(w.pops.contains_key(p));
            assert(w.pop_ok(w.pops[p]));
            assert(pop_ticket(w.pops[who]) != pop_ticket(w.pops[p]));
        }
    }
    assert(v.tickets_distinct()) by {
        assert forall|a: int, b: int| #![trigger v.pops[a], v.pops[b]]
            v.pops.contains_key(a) && v.pops.contains_key(b) && a != b && pop_ticket(
                v.pops[a],
            ) is Some implies pop_ticket(v.pops[a]) != pop_ticket(v.pops[b]) by {
            assert(pop_ticket(w.pops[a]) != pop_ticket(w.pops[b]));
        }
        assert(v.pushes == w.pushes);
    }
    assert(v.delivery_ok()) by {
        assert forall|x: int| #[trigger] v.delivered.contains_key(x) implies 0 <= x
            < v.tape.reader && v.delivered[x] == v.issued[x] && forall|p: int|
         !#[trigger] v.carrying(p, x) by {
            assert(w.delivered.contains_key(x));
            assert forall|p: int| !#[trigger] v.carrying(p, x) by {
                assert(!w.carrying(p, x));
            }
        }
        assert forall|x: int|
            0 <= x < v.tape.reader && !#[trigger] v.delivered.contains_key(x) implies exists|p:
            int| #[trigger] v.carrying(p, x) by {
            assert(!w.delivered.contains_key(x));
            let p = choose|p: int| #[trigger] w.carrying(p, x);
            assert(v.carrying(p, x));
        }
    }
    assert(v.uncounted_pushes() =~= w.uncounted_pushes());
    assert(v.uncounted_pops() =~= w.uncounted_pops());
}

/// A pop is counted and returns its item.
proof fn lemma_pop_returns<T>(w: Ledger<T>, who: int)
    requires
        w.consistent(),
        w.pops.contains_key(who),
        w.pops[who].at is Count,
    ensures
        w.step_pop(who).consistent(),
{
    let v = w.step_pop(who);
    let n = w.n();
    let op = w.pops[who];
    let t = pop_ticket(op)->0;
    assert(w.pop_ok(op));
    assert forall|i: int| 0 <= i < n implies #[trigger] v.cell_ok(i) by {
        assert(w.cell_ok(i));
        let lap = w.laps[i];
        if exists|p: int| #[trigger] w.writing(p, lap) {
            let p = choose|p: int| #[trigger] w.writing(p, lap);
            assert(v.writing(p, lap));
        }
        if exists|p: int| #[trigger] w.taking(p, lap) {
            let p = choose|p: int| #[trigger] w.taking(p, lap);
            assert(v.taking(p, lap));
        }
    }
    assert forall|p: int| #[trigger] v.pushes.contains_key(p) implies v.push_ok(v.pushes[p]) by {
        assert(w.pushes.contains_key(p));
    }
    assert forall|p: int| #[trigger] v.pops.contains_key(p) implies v.pop_ok(v.pops[p]) by {
        assert(w.pops.contains_key(p));
    }
    assert(v.tickets_distinct()) by {
        assert forall|a: int, b: int| #![trigger v.pops[a], v.pops[b]]
            v.pops.contains_key(a) && v.pops.contains_key(b) && a != b && pop_ticket(
                v.pops[a],
            ) is Some implies pop_ticket(v.pops[a]) != pop_ticket(v.pops[b]) by {
            assert(pop_ticket(w.pops[a]) != pop_ticket(w.pops[b]));
        }
        assert(v.pushes == w.pushes);
    }
    assert(v.delivery_ok()) by {
        assert forall|x: int| #[trigger] v.delivered.contains_key(x) implies 0 <= x
            < v.tape.reader && v.delivered[x] == v.issued[x] && forall|p: int|
         !#[trigger] v.carrying(p, x) by {
            if x != t {
                assert(w.delivered.contains_key(x));
            }
            assert forall|p: int| !#[trigger] v.carrying(p, x) by {
                if x != t {
                    assert(!w.carrying(p, x));
                } else if p != who && v.pops.contains_key(p) {
                    assert(pop_ticket(w.pops[who]) != pop_ticket(w.pops[p]));
                }
            }
        }
        assert forall|x: int|
            0 <= x < v.tape.reader && !#[trigger] v.delivered.contains_key(x) implies exists|p:
            int| #[trigger] v.carrying(p, x) by {
            assert(!w.delivered.contains_key(x));
            let p = choose|p: int| #[trigger] w.carrying(p, x);
            assert(v.carrying(p, x));
        }
    }
    assert(w.uncounted_pops().contains(who));
    assert(v.uncounted_pops() =~= w.uncounted_pops().remove(who));
    assert(v.uncounted_pushes() =~= w.uncounted_pushes());
    num::lemma_wrap_add(
        w.tape.writer - w.tape.reader - w.uncounted_pushes().len() + w.uncounted_pops().len(),
        -1,
    );
}

/// Every step of every pop keeps everything consistent.
pub proof fn step_pop_keeps_consistent<T>(w: Ledger<T>, who: int)
    requires
        w.consistent(),
        w.pops.contains_key(who),
    ensures
        w.step_pop(who).consistent(),
{
    let v = w.step_pop(who);
    let op = w.pops[who];
    assert(w.pop_ok(op));
    match op.at {
        PopPhase::Take { .. } => lemma_pop_with_ticket(w, who),
        PopPhase::Recycle { .. } => lemma_pop_with_ticket(w, who),
        PopPhase::Count { .. } => lemma_pop_returns(w, who),
        PopPhase::Claim { ticket } if ticket == w.tape.reader => {
            lemma_pop_claims(w, who);
        },
        _ => {
            assert(v.pops.remove(who) =~= w.pops.remove(who));
            if let PopPhase::LoadSequence { ticket } = op.at {
                let t = ticket;
                lemma_slot(w, t);
                assert(w.cell_ok(t % w.n()));
            }
            lemma_pop_without_ticket(w, v, who);
        },
    }
}

/// A pop that returns an item returns exactly the item that was issued with
/// the ticket it holds, and it is the only one ever to return for this ticket.
pub proof fn popped_item_is_the_issued_one<T>(w: Ledger<T>, who: int)
    requires
        w.consistent(),
        w.pops.contains_key(who),
        pop_next(w.tape, w.pops[who]).2 matches Some(Ok(Some(_))),
    ensures
        ({
            let ticket = pop_ticket(w.pops[who])->0;
            &&& pop_ticket(w.pops[who]) is Some
            &&& 0 <= ticket < w.issued.len()
            &&& !w.delivered.contains_key(ticket)
            &&& pop_next(w.tape, w.pops[who]).2->0 == Ok::<
                Option<T>,
                ringbuffer::PopError,
            >(Some(w.issued[ticket]))
            &&& w.step_pop(who).delivered == w.delivered.insert(ticket, w.issued[ticket])
        }),
{
    let op = w.pops[who];
    assert(w.pop_ok(op));
    assert(op.at is Count);
    let t = pop_ticket(op)->0;
    assert(w.carrying(who, t));
}

/// Once no operation is in progress nothing is lost: exactly the tickets below
/// the read cursor have been handed out, each with the item issued for it, the
/// items of all later tickets are in their cells, and the counter tells how many
/// they are.
pub proof fn nothing_is_lost_when_quiet<T>(w: Ledger<T>)
    requires
        w.consistent(),
        w.pushes.dom() == Set::<int>::empty(),
        w.pops.dom() == Set::<int>::empty(),
    ensures
        forall|t: int| #[trigger] w.delivered.contains_key(t) <==> 0 <= t < w.tape.reader,
        forall|t: int| 0 <= t < w.tape.reader ==> #[trigger] w.delivered[t] == w.issued[t],
        w.tape.len == w.tape.writer - w.tape.reader <= w.n(),
        forall|t: int|
            w.tape.reader <= t < w.tape.writer ==> (#[trigger] w.tape.cell_of(t)).data == Some(
                w.issued[t],
            ),
{
    num::lemma_word_count();
    assert forall|t: int| #[trigger] w.delivered.contains_key(t) <==> 0 <= t < w.tape.reader by {
        if 0 <= t < w.tape.reader && !w.delivered.contains_key(t) {
            let who = choose|who: int| #[trigger] w.carrying(who, t);
            assert(w.pops.dom().contains(who));
        }
    }
    assert forall|t: int| 0 <= t < w.tape.reader implies #[trigger] w.delivered[t]
        == w.issued[t] by {
        assert(w.delivered.contains_key(t));
    }
    assert(w.uncounted_pushes() =~= Set::<int>::empty());
    assert(w.uncounted_pops() =~= Set::<int>::empty());
    assert(w.tape.writer - w.tape.reader <= w.n()) by {
        if w.tape.reader < w.tape.writer {
            let t = w.tape.reader;
            lemma_slot(w, t);
            assert(w.laps[t % w.n()] == t);
            assert(w.cell_ok(t % w.n()));
        }
    }
    num::lemma_wrap(w.tape.writer - w.tape.reader);
    assert forall|t: int| w.tape.reader <= t < w.tape.writer implies (#[trigger] w.tape.cell_of(
        t,
    )).data == Some(w.issued[t]) by {
        assert(w.laps[t % w.n()] == t);
        lemma_slot(w, t);
        assert(w.cell_ok(t % w.n()));
        if w.tape.slots[t % w.n()].sequence == t {
            let who = choose|who: int| #[trigger] w.writing(who, t);
            assert(w.pushes.dom().contains(who));
        }
    }
}

} // verus!

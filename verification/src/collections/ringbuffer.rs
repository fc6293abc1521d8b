//! A bounded multi-producer multi-consumer ring buffer.
//!
//! `RingBuffer` is a fixed-capacity queue. Every slot owns a sequence number
//! that says whose turn it is: a slot whose number equals a ticket is free for
//! the producer that holds this ticket, a slot whose number is one above a
//! ticket holds the item of this ticket.
//!
//! # Capacity
//!
//! The number of slots is the requested capacity rounded up to the next power
//! of two (with a minimum of two) so the slot of a ticket can be computed with
//! a bitmask.
//!
//! # Steps
//!
//! [`PushOp`] and [`PopOp`] are the two operations taken apart: each call of
//! `step` performs exactly one access to the shared words, so a scheduler can
//! interleave any number of producers and consumers. [`RingBuffer::push`] and
//! [`RingBuffer::pop`] run all the steps of one operation without interference.

use crate::num;
use vstd::prelude::*;

verus! {

/// How many times a push or a pop tries before it gives up.
pub const ROUNDS: u8 = 10;

/// One cell of the ring.
#[derive(Debug)]
pub struct Slot<T> {
    pub sequence: usize,
    pub data: Option<T>,
}

/// All possible ways push fails.
#[derive(Debug)]
pub enum PushError<T> {
    /// Ringbuffer is full. It only makes sense to retry after a pop
    Full(T),
    /// Push failed to win the contention race. Push can be retried.
    HighContention(T),
}

/// All possible ways pop fails.
#[derive(Debug)]
pub enum PopError {
    /// Pop failed to win the contention race. Pop can be retried.
    HighContention,
}

/// A bounded multi-producer multi-consumer queue (ring buffer).
#[derive(Debug)]
pub struct RingBuffer<T> {
    pub slots: Vec<Slot<T>>,
    pub cap: usize,
    pub mask: usize,
    pub len: usize,
    pub writer: usize,
    pub reader: usize,
}

/// The shared words of a ring buffer, as a value.
#[verifier::ext_equal]
pub struct Words<T> {
    pub slots: Seq<Slot<T>>,
    pub cap: usize,
    pub mask: usize,
    pub len: usize,
    pub writer: usize,
    pub reader: usize,
}

/// Where a push stands. The ticket is the value of the write cursor that the
/// push has read.
#[derive(Debug)]
pub enum PushAt {
    CheckLen,
    LoadWriter,
    LoadSequence { ticket: usize },
    Claim { ticket: usize },
    Write { ticket: usize },
    Publish { ticket: usize },
    Count { ticket: usize },
    Done,
}

/// A push in progress.
#[derive(Debug)]
pub struct PushOp<T> {
    pub item: Option<T>,
    pub rounds: u8,
    pub at: PushAt,
}

/// Where a pop stands. The ticket is the value of the read cursor that the pop
/// has read.
#[derive(Debug)]
pub enum PopAt {
    LoadReader,
    LoadSequence { ticket: usize },
    Claim { ticket: usize },
    Take { ticket: usize },
    Recycle { ticket: usize },
    Count { ticket: usize },
    Done,
}

/// A pop in progress.
#[derive(Debug)]
pub struct PopOp<T> {
    pub item: Option<T>,
    pub rounds: u8,
    pub at: PopAt,
}

/// The sequence number seen from a ticket, as a signed distance: equal,
/// behind or ahead.
pub open spec fn behind(sequence: usize, ticket: usize) -> bool {
    num::wrap(sequence - ticket) > isize::MAX
}

impl<T> Words<T> {
    /// The slot that a ticket belongs to.
    pub open spec fn index(self, ticket: usize) -> int {
        (ticket & self.mask) as int
    }

    /// The cell that lies `k` places behind the read cursor.
    pub open spec fn cell(self, k: int) -> Slot<T> {
        self.slots[(self.reader + k) % self.slots.len() as int]
    }

    /// No operation is in progress: the `len` cells from the read cursor on hold
    /// items and are marked so, all others are empty and marked for the next lap.
    pub open spec fn settled(self) -> bool {
        &&& self.slots.len() == self.mask + 1
        &&& num::power_of_two(self.slots.len() as int)
        &&& 2 <= self.slots.len() <= num::largest_power()
        &&& self.len <= self.cap <= self.slots.len()
        &&& self.writer == num::wrap(self.reader + self.len)
        &&& forall|k: int| 0 <= k < self.slots.len() ==> self.cell_settled(k)
    }

    /// Whether the cell `k` places behind the read cursor is as it should be.
    pub open spec fn cell_settled(self, k: int) -> bool {
        let cell = #[trigger] self.cell(k);
        if k < self.len {
            cell.sequence == num::wrap(self.reader + k + 1) && cell.data is Some
        } else {
            cell.sequence == num::wrap(self.reader + k) && cell.data is None
        }
    }

    /// The items that wait to be popped, oldest first.
    pub open spec fn items(self) -> Seq<T> {
        Seq::new(self.len as nat, |k: int| self.cell(k).data->0)
    }

    /// The words after one cell has changed.
    pub open spec fn with_cell(self, i: int, cell: Slot<T>) -> Words<T> {
        Words { slots: self.slots.update(i, cell), ..self }
    }
}

/// What one step of a push makes of the shared words and of the push, and what
/// the push returns if the step ends it.
pub open spec fn push_next<T>(m: Words<T>, op: PushOp<T>) -> (
    Words<T>,
    PushOp<T>,
    Option<Result<(), PushError<T>>>,
) {
    match op.at {
        PushAt::CheckLen => if m.len == m.cap {
            (
                m,
                PushOp { item: None, at: PushAt::Done, ..op },
                Some(Err(PushError::Full(op.item->0))),
            )
        } else {
            (m, PushOp { at: PushAt::LoadWriter, ..op }, None)
        },
        PushAt::LoadWriter => (
            m,
            PushOp { at: PushAt::LoadSequence { ticket: m.writer }, ..op },
            None,
        ),
        PushAt::LoadSequence { ticket } => {
            let sequence = m.slots[m.index(ticket)].sequence;
            if sequence == ticket {
                (m, PushOp { at: PushAt::Claim { ticket }, ..op }, None)
            } else if behind(sequence, ticket) {
                (
                    m,
                    PushOp { item: None, at: PushAt::Done, ..op },
                    Some(Err(PushError::Full(op.item->0))),
                )
            } else {
                push_again(m, op)
            }
        },
        PushAt::Claim { ticket } => if m.writer == ticket {
            (
                Words { writer: num::wrap(ticket + 1), ..m },
                PushOp { at: PushAt::Write { ticket }, ..op },
                None,
            )
        } else {
            push_again(m, op)
        },
        PushAt::Write { ticket } => {
            let i = m.index(ticket);
            (
                m.with_cell(i, Slot { data: op.item, ..m.slots[i] }),
                PushOp { item: None, at: PushAt::Publish { ticket }, ..op },
                None,
            )
        },
        PushAt::Publish { ticket } => {
            let i = m.index(ticket);
            (
                m.with_cell(i, Slot { sequence: num::wrap(ticket + 1), ..m.slots[i] }),
                PushOp { at: PushAt::Count { ticket }, ..op },
                None,
            )
        },
        PushAt::Count { ticket } => (
            Words { len: num::wrap(m.len + 1), ..m },
            PushOp { at: PushAt::Done, ..op },
            Some(Ok(())),
        ),
        PushAt::Done => (m, op, None),
    }
}

/// A push that lost a round: it starts over, unless this was its last round.
pub open spec fn push_again<T>(m: Words<T>, op: PushOp<T>) -> (
    Words<T>,
    PushOp<T>,
    Option<Result<(), PushError<T>>>,
) {
    if op.rounds + 1 >= ROUNDS {
        (
            m,
            PushOp { item: None, rounds: ROUNDS, at: PushAt::Done },
            Some(Err(PushError::HighContention(op.item->0))),
        )
    } else {
        (m, PushOp { rounds: (op.rounds + 1) as u8, at: PushAt::CheckLen, ..op }, None)
    }
}

/// What one step of a pop makes of the shared words and of the pop, and what
/// the pop returns if the step ends it.
pub open spec fn pop_next<T>(m: Words<T>, op: PopOp<T>) -> (
    Words<T>,
    PopOp<T>,
    Option<Result<Option<T>, PopError>>,
) {
    match op.at {
        PopAt::LoadReader => (
            m,
            PopOp { at: PopAt::LoadSequence { ticket: m.reader }, ..op },
            None,
        ),
        PopAt::LoadSequence { ticket } => {
            let sequence = m.slots[m.index(ticket)].sequence;
            if sequence == num::wrap(ticket + 1) {
                (m, PopOp { at: PopAt::Claim { ticket }, ..op }, None)
            } else if behind(sequence, num::wrap(ticket + 1)) {
                (m, PopOp { at: PopAt::Done, ..op }, Some(Ok(None)))
            } else {
                pop_again(m, op)
            }
        },
        PopAt::Claim { ticket } => if m.reader == ticket {
            (
                Words { reader: num::wrap(ticket + 1), ..m },
                PopOp { at: PopAt::Take { ticket }, ..op },
                None,
            )
        } else {
            pop_again(m, op)
        },
        PopAt::Take { ticket } => {
            let i = m.index(ticket);
            (
                m.with_cell(i, Slot { data: None, ..m.slots[i] }),
                PopOp { item: m.slots[i].data, at: PopAt::Recycle { ticket }, ..op },
                None,
            )
        },
        PopAt::Recycle { ticket } => {
            let i = m.index(ticket);
            (
                m.with_cell(
                    i,
                    Slot { sequence: num::wrap(ticket + m.mask + 1), ..m.slots[i] },
                ),
                PopOp { at: PopAt::Count { ticket }, ..op },
                None,
            )
        },
        PopAt::Count { ticket } => (
            Words { len: num::wrap(m.len - 1), ..m },
            PopOp { item: None, at: PopAt::Done, ..op },
            Some(Ok(op.item)),
        ),
        PopAt::Done => (m, op, None),
    }
}

/// A pop that lost a round: it starts over, unless this was its last round.
pub open spec fn pop_again<T>(m: Words<T>, op: PopOp<T>) -> (
    Words<T>,
    PopOp<T>,
    Option<Result<Option<T>, PopError>>,
) {
    if op.rounds + 1 >= ROUNDS {
        (
            m,
            PopOp { rounds: ROUNDS, at: PopAt::Done, ..op },
            Some(Err(PopError::HighContention)),
        )
    } else {
        (m, PopOp { rounds: (op.rounds + 1) as u8, at: PopAt::LoadReader, ..op }, None)
    }
}

/// A push gives its item back only for a reason: because the buffer counts as
/// many items as it may, because the slot of its ticket still belongs to the lap
/// before, or because it has lost its tenth round. Giving it back changes nothing
/// else.
pub proof fn push_fails_only_for_a_reason<T>(m: Words<T>, op: PushOp<T>)
    requires
        op.item is Some,
    ensures
        push_next(m, op).2 matches Some(Err(PushError::Full(item))) ==> {
            &&& Some(item) == op.item
            &&& push_next(m, op).0 == m
            &&& op.at is CheckLen && m.len == m.cap || (op.at matches PushAt::LoadSequence { ticket }
                && (m.slots[(ticket & m.mask) as int].sequence - ticket) % (usize::MAX + 1)
                > isize::MAX)
        },
        push_next(m, op).2 matches Some(Err(PushError::HighContention(item))) ==> Some(item)
            == op.item && op.rounds >= 9 && push_next(m, op).0 == m,
        push_next(m, op).2 matches Some(Ok(())) ==> op.at is Count,
        op.at is CheckLen && m.len != m.cap ==> push_next(m, op).2 is None,
        push_next(m, op).1.rounds > op.rounds ==> (op.at matches PushAt::Claim { ticket } && m.writer
            != ticket) || (op.at matches PushAt::LoadSequence { ticket } && m.slots[(ticket
            & m.mask) as int].sequence != ticket),
        push_next(m, op).2 is None ==> push_next(m, op).1.rounds <= op.rounds + 1,
{
    if let PushAt::LoadSequence { ticket } = op.at {
        num::lemma_wrap(m.slots[m.index(ticket)].sequence - ticket);
    }
}

/// A pop finds nothing only if the slot of its ticket has not been filled yet,
/// and gives up only after it has lost its tenth round; both change nothing else.
/// An item that it returns is the one that it has taken.
pub proof fn pop_fails_only_for_a_reason<T>(m: Words<T>, op: PopOp<T>)
    ensures
        (found_nothing(pop_next(m, op).2) && op.at !is Count) ==> {
            &&& pop_next(m, op).0 == m
            &&& op.at matches PopAt::LoadSequence { ticket } && (m.slots[(ticket
                & m.mask) as int].sequence - (ticket + 1)) % (usize::MAX + 1) > isize::MAX
        },
        pop_next(m, op).2 matches Some(Err(PopError::HighContention)) ==> op.rounds >= 9
            && pop_next(m, op).0 == m,
        pop_next(m, op).2 matches Some(Ok(Some(item))) ==> op.at is Count && op.item == Some(item),
        pop_next(m, op).1.rounds > op.rounds ==> (op.at matches PopAt::Claim { ticket } && m.reader
            != ticket) || op.at is LoadSequence,
        pop_next(m, op).2 is None ==> pop_next(m, op).1.rounds <= op.rounds + 1,
{
    if let PopAt::LoadSequence { ticket } = op.at {
        let q = m.slots[m.index(ticket)].sequence;
        num::lemma_wrap(ticket + 1);
        num::lemma_wrap(q - num::wrap(ticket + 1));
        num::lemma_wrap(q - (ticket + 1));
    }
}

/// The slot of a ticket exists.
proof fn lemma_index_inside<T>(m: Words<T>, ticket: usize)
    requires
        m.mask < m.slots.len(),
    ensures
        0 <= m.index(ticket) < m.slots.len(),
{
    let mask = m.mask;
    assert(ticket & mask <= mask) by (bit_vector);
}

/// A push is told at once that the buffer is full or that its slot is not free
/// yet, takes a slot whose turn has come, and tries again where another push was
/// faster. What it takes it fills, and it touches no other slot.
pub proof fn push_takes_its_turn<T>(m: Words<T>, op: PushOp<T>)
    requires
        op.item is Some,
        m.mask < m.slots.len(),
    ensures
        ({
            let (after, next, r) = push_next(m, op);
            &&& op.at is CheckLen && m.len == m.cap ==> r == Some(
                Err::<(), PushError<T>>(PushError::Full(op.item->0)),
            )
            &&& op.at is CheckLen && m.len != m.cap ==> next.at is LoadWriter
            &&& op.at is LoadWriter ==> next.at == (PushAt::LoadSequence { ticket: m.writer })
            &&& op.at matches PushAt::LoadSequence { ticket } ==> {
                let d = (m.slots[(ticket & m.mask) as int].sequence - ticket) % (usize::MAX + 1);
                &&& d == 0 ==> r is None && next == (PushOp { at: PushAt::Claim { ticket }, ..op })
                &&& d > isize::MAX ==> r == Some(
                    Err::<(), PushError<T>>(PushError::Full(op.item->0)),
                )
                &&& 0 < d <= isize::MAX && op.rounds < 9 ==> r is None && next.at is CheckLen
                    && next.rounds == op.rounds + 1 && next.item == op.item
                &&& 0 < d <= isize::MAX && op.rounds >= 9 ==> r == Some(
                    Err::<(), PushError<T>>(PushError::HighContention(op.item->0)),
                )
                &&& after == m
            }
            &&& op.at matches PushAt::Claim { ticket } ==> m.writer == ticket ==> {
                &&& next == (PushOp { at: PushAt::Write { ticket }, ..op })
                &&& after.writer == (ticket + 1) % (usize::MAX + 1)
                &&& after.slots == m.slots && after.len == m.len && after.reader == m.reader
            }
            &&& op.at matches PushAt::Claim { ticket } ==> m.writer != ticket && op.rounds < 9 ==> {
                next.at is CheckLen && next.rounds == op.rounds + 1 && next.item == op.item && after
                    == m
            }
            &&& op.at matches PushAt::Write { ticket } ==> {
                let i = (ticket & m.mask) as int;
                &&& next.at == (PushAt::Publish { ticket })
                &&& after.slots.len() == m.slots.len()
                &&& after.slots[i].data == op.item
                    && after.slots[i].sequence == m.slots[i].sequence
                &&& forall|k: int|
                    0 <= k < m.slots.len() && k != i ==> #[trigger] after.slots[k] == m.slots[k]
            }
        }),
{
    if let PushAt::LoadSequence { ticket } = op.at {
        num::lemma_wrap(m.slots[m.index(ticket)].sequence - ticket);
    }
    if let PushAt::Claim { ticket } = op.at {
        num::lemma_wrap(ticket + 1);
    }
    if let PushAt::Write { ticket } = op.at {
        lemma_index_inside(m, ticket);
    }
}

/// A pop finds nothing in a slot that is not filled yet, takes a slot whose turn
/// has come, and tries again where another pop was faster. What it takes it
/// empties, and marks for the push that comes one lap later.
pub proof fn pop_takes_its_turn<T>(m: Words<T>, op: PopOp<T>)
    requires
        m.mask < m.slots.len(),
    ensures
        ({
            let (after, next, r) = pop_next(m, op);
            &&& op.at is LoadReader ==> next.at == (PopAt::LoadSequence { ticket: m.reader })
            &&& op.at matches PopAt::LoadSequence { ticket } ==> {
                let d = (m.slots[(ticket & m.mask) as int].sequence - (ticket + 1)) % (usize::MAX
                    + 1);
                &&& d == 0 ==> r is None && next == (PopOp { at: PopAt::Claim { ticket }, ..op })
                &&& d > isize::MAX ==> r == Some(Ok::<Option<T>, PopError>(None))
                &&& 0 < d <= isize::MAX && op.rounds < 9 ==> r is None && next.at is LoadReader
                    && next.rounds == op.rounds + 1
                &&& 0 < d <= isize::MAX && op.rounds >= 9 ==> r == Some(
                    Err::<Option<T>, PopError>(PopError::HighContention),
                )
                &&& after == m
            }
            &&& op.at matches PopAt::Claim { ticket } ==> m.reader == ticket ==> {
                &&& next == (PopOp { at: PopAt::Take { ticket }, ..op })
                &&& after.reader == (ticket + 1) % (usize::MAX + 1)
                &&& after.slots == m.slots && after.len == m.len && after.writer == m.writer
            }
            &&& op.at matches PopAt::Claim { ticket } ==> m.reader != ticket && op.rounds < 9 ==> {
                next.at is LoadReader && next.rounds == op.rounds + 1 && after == m
            }
            &&& op.at matches PopAt::Take { ticket } ==> {
                let i = (ticket & m.mask) as int;
                &&& next.at == (PopAt::Recycle { ticket })
                &&& next.item == m.slots[i].data
                &&& after.slots[i].data is None
                &&& forall|k: int|
                    0 <= k < m.slots.len() && k != i ==> #[trigger] after.slots[k] == m.slots[k]
            }
            &&& op.at matches PopAt::Recycle { ticket } ==> {
                let i = (ticket & m.mask) as int;
                &&& next.at == (PopAt::Count { ticket }) && next.item == op.item
                &&& after.slots[i].sequence == (ticket + m.mask + 1) % (
                usize::MAX + 1)
                &&& forall|k: int|
                    0 <= k < m.slots.len() && k != i ==> #[trigger] after.slots[k] == m.slots[k]
            }
        }),
{
    if let PopAt::LoadSequence { ticket } = op.at {
        let q = m.slots[m.index(ticket)].sequence;
        num::lemma_wrap(ticket + 1);
        num::lemma_wrap(q - num::wrap(ticket + 1));
        num::lemma_wrap(q - (ticket + 1));
    }
    if let PopAt::Claim { ticket } = op.at {
        num::lemma_wrap(ticket + 1);
    }
    if let PopAt::Take { ticket } = op.at {
        lemma_index_inside(m, ticket);
    }
    if let PopAt::Recycle { ticket } = op.at {
        num::lemma_wrap(ticket + m.mask + 1);
        lemma_index_inside(m, ticket);
    }
}

/// Whether a pop returns without an item.
pub open spec fn found_nothing<T>(r: Option<Result<Option<T>, PopError>>) -> bool {
    r matches Some(Ok(None))
}

/// Moves a cursor, modulo the range of a word.
fn advance(x: usize, by: usize) -> (r: usize)
    ensures
        r == num::wrap(x + by),
{
    proof {
        num::lemma_wrap(x + by);
    }
    x.wrapping_add(by)
}

/// Distance between two cursors, modulo the range of a word.
fn distance(x: usize, y: usize) -> (r: usize)
    ensures
        r == num::wrap(x - y),
        r == 0 <==> x == y,
{
    proof {
        num::lemma_wrap(x - y);
    }
    x.wrapping_sub(y)
}

impl<T> PushOp<T> {
    /// Whether the push still holds its item exactly when it should.
    pub open spec fn wf(self) -> bool {
        &&& self.rounds <= ROUNDS
        &&& self.at !is Done ==> self.rounds < ROUNDS
        &&& self.item is Some <==> (self.at !is Publish && self.at !is Count && self.at !is Done)
    }

    /// A push of `item` that has not accessed anything yet.
    pub open spec fn start(item: T) -> PushOp<T> {
        PushOp { item: Some(item), rounds: 0, at: PushAt::CheckLen }
    }

    pub fn new(item: T) -> (r: PushOp<T>)
        ensures
            r == PushOp::start(item),
            r.wf(),
    {
        PushOp { item: Some(item), rounds: 0, at: PushAt::CheckLen }
    }

    /// Performs the next access of the push. Returns what the push returns
    /// once it has ended.
    pub fn step(&mut self, rb: &mut RingBuffer<T>) -> (r: Option<Result<(), PushError<T>>>)
        requires
            old(self).wf(),
            old(rb).sized(),
        ensures
            (final(rb).words(), *final(self), r) == push_next(old(rb).words(), *old(self)),
            final(self).wf(),
            final(rb).sized(),
            r is Some ==> final(self).at is Done,
            r is None ==> old(self).at is Done || final(self).at !is Done,
    {
        match self.at {
            PushAt::CheckLen => {
                if rb.len == rb.cap {
                    self.at = PushAt::Done;
                    match self.item.take() {
                        Some(item) => Some(Err(PushError::Full(item))),
                        None => None,
                    }
                } else {
                    self.at = PushAt::LoadWriter;
                    None
                }
            },
            PushAt::LoadWriter => {
                self.at = PushAt::LoadSequence { ticket: rb.writer };
                None
            },
            PushAt::LoadSequence { ticket } => {
                let i: usize = rb.slot_of(ticket);
                let sequence: usize = rb.slots[i].sequence;
                let d: usize = distance(sequence, ticket);
                if d == 0 {
                    self.at = PushAt::Claim { ticket };
                    None
                } else if d > isize::MAX as usize {
                    self.at = PushAt::Done;
                    match self.item.take() {
                        Some(item) => Some(Err(PushError::Full(item))),
                        None => None,
                    }
                } else {
                    self.lose_round()
                }
            },
            PushAt::Claim { ticket } => {
                if rb.writer == ticket {
                    rb.writer = advance(ticket, 1);
                    self.at = PushAt::Write { ticket };
                    None
                } else {
                    self.lose_round()
                }
            },
            PushAt::Write { ticket } => {
                let i: usize = rb.slot_of(ticket);
                rb.slots[i].data = self.item.take();
                self.at = PushAt::Publish { ticket };
                None
            },
            PushAt::Publish { ticket } => {
                let i: usize = rb.slot_of(ticket);
                rb.slots[i].sequence = advance(ticket, 1);
                self.at = PushAt::Count { ticket };
                None
            },
            PushAt::Count { ticket: _ } => {
                rb.len = advance(rb.len, 1);
                self.at = PushAt::Done;
                Some(Ok(()))
            },
            PushAt::Done => None,
        }
    }

    /// Starts over, or gives up after the last round.
    fn lose_round(&mut self) -> (r: Option<Result<(), PushError<T>>>)
        requires
            old(self).wf(),
            old(self).item is Some,
        ensures
            forall|m: Words<T>|
                (m, *final(self), r) == #[trigger] push_again(m, *old(self)),
            final(self).wf(),
            r is Some ==> final(self).at is Done,
            r is None ==> final(self).at !is Done,
    {
        self.rounds = self.rounds + 1;
        if self.rounds >= ROUNDS {
            self.at = PushAt::Done;
            match self.item.take() {
                Some(item) => Some(Err(PushError::HighContention(item))),
                None => None,
            }
        } else {
            self.at = PushAt::CheckLen;
            None
        }
    }
}

impl<T> PopOp<T> {
    /// Whether the pop holds an item only after it took one.
    pub open spec fn wf(self) -> bool {
        &&& self.rounds <= ROUNDS
        &&& self.at !is Done ==> self.rounds < ROUNDS
        &&& self.item is Some ==> (self.at is Recycle || self.at is Count)
    }

    /// A pop that has not accessed anything yet.
    pub open spec fn start() -> PopOp<T> {
        PopOp { item: None, rounds: 0, at: PopAt::LoadReader }
    }

    pub fn new() -> (r: PopOp<T>)
        ensures
            r == PopOp::<T>::start(),
            r.wf(),
    {
        PopOp { item: None, rounds: 0, at: PopAt::LoadReader }
    }

    /// Performs the next access of the pop. Returns what the pop returns once
    /// it has ended.
    pub fn step(&mut self, rb: &mut RingBuffer<T>) -> (r: Option<Result<Option<T>, PopError>>)
        requires
            old(self).wf(),
            old(rb).sized(),
        ensures
            (final(rb).words(), *final(self), r) == pop_next(old(rb).words(), *old(self)),
            final(self).wf(),
            final(rb).sized(),
            r is Some ==> final(self).at is Done,
            r is None ==> old(self).at is Done || final(self).at !is Done,
    {
        match self.at {
            PopAt::LoadReader => {
                self.at = PopAt::LoadSequence { ticket: rb.reader };
                None
            },
            PopAt::LoadSequence { ticket } => {
                let i: usize = rb.slot_of(ticket);
                let sequence: usize = rb.slots[i].sequence;
                let d: usize = distance(sequence, advance(ticket, 1));
                if d == 0 {
                    self.at = PopAt::Claim { ticket };
                    None
                } else if d > isize::MAX as usize {
                    self.at = PopAt::Done;
                    Some(Ok(None))
                } else {
                    self.lose_round()
                }
            },
            PopAt::Claim { ticket } => {
                if rb.reader == ticket {
                    rb.reader = advance(ticket, 1);
                    self.at = PopAt::Take { ticket };
                    None
                } else {
                    self.lose_round()
                }
            },
            PopAt::Take { ticket } => {
                let i: usize = rb.slot_of(ticket);
                self.item = rb.slots[i].data.take();
                self.at = PopAt::Recycle { ticket };
                None
            },
            PopAt::Recycle { ticket } => {
                let i: usize = rb.slot_of(ticket);
                let next_lap: usize = advance(advance(ticket, rb.mask), 1);
                proof {
                    num::lemma_wrap_add(ticket + rb.mask, 1);
                }
                rb.slots[i].sequence = next_lap;
                self.at = PopAt::Count { ticket };
                None
            },
            PopAt::Count { ticket: _ } => {
                rb.len = distance(rb.len, 1);
                self.at = PopAt::Done;
                Some(Ok(self.item.take()))
            },
            PopAt::Done => None,
        }
    }

    /// Starts over, or gives up after the last round.
    fn lose_round(&mut self) -> (r: Option<Result<Option<T>, PopError>>)
        requires
            old(self).wf(),
            old(self).at !is Done,
            old(self).item is None,
        ensures
            forall|m: Words<T>|
                (m, *final(self), r) == #[trigger] pop_again(m, *old(self)),
            final(self).wf(),
            r is Some ==> final(self).at is Done,
            r is None ==> final(self).at !is Done,
    {
        self.rounds = self.rounds + 1;
        if self.rounds >= ROUNDS {
            self.at = PopAt::Done;
            Some(Err(PopError::HighContention))
        } else {
            self.at = PopAt::LoadReader;
            None
        }
    }
}

/// Distinct distances from a cursor, both within one lap, lead to distinct
/// slots.
pub(crate) proof fn lemma_distinct_slots(start: int, a: int, b: int, n: int)
    requires
        n > 0,
        0 <= a < n,
        0 <= b < n,
        a != b,
    ensures
        (start + a) % n != (start + b) % n,
{
    if (start + a) % n == (start + b) % n {
        vstd::arithmetic::div_mod::lemma_mod_equivalence(start + a, start + b, n);
        let d = a - b;
        vstd::arithmetic::div_mod::lemma_fundamental_div_mod(d, n);
        let q = d / n;
        assert(q == 0) by (nonlinear_arith)
            requires
                d == n * q,
                -n < d < n,
                n > 0,
        ;
    }
}

/// Moving the cursor by `by`, with or without reduction to a word, leads to the
/// same slots.
proof fn lemma_same_slot(start: int, by: int, n: int)
    requires
        num::power_of_two(n),
        n <= num::word_count(),
    ensures
        (num::wrap(start) + by) % n == (start + by) % n,
        n > 0,
{
    num::lemma_wrapped_remainder(start, n);
    num::lemma_power_divides_word_count(n);
    num::lemma_wrap(start);
    vstd::arithmetic::div_mod::lemma_add_mod_noop(num::wrap(start) as int, by, n);
    vstd::arithmetic::div_mod::lemma_add_mod_noop(start, by, n);
}

/// The words after an undisturbed push.
pub open spec fn after_push<T>(m: Words<T>, item: T) -> Words<T> {
    let i = m.index(m.writer);
    Words {
        slots: m.slots.update(
            i,
            Slot { sequence: num::wrap(m.writer + 1), data: Some(item) },
        ),
        writer: num::wrap(m.writer + 1),
        len: num::wrap(m.len + 1),
        ..m
    }
}

/// The words after an undisturbed pop.
pub open spec fn after_pop<T>(m: Words<T>) -> Words<T> {
    let i = m.index(m.reader);
    Words {
        slots: m.slots.update(
            i,
            Slot { sequence: num::wrap(m.reader + m.mask + 1), data: None },
        ),
        reader: num::wrap(m.reader + 1),
        len: num::wrap(m.len - 1),
        ..m
    }
}

proof fn lemma_settled_cursors<T>(m: Words<T>)
    requires
        m.settled(),
    ensures
        m.index(m.writer) == (m.reader + m.len) % m.slots.len() as int,
        m.index(m.reader) == (m.reader + 0) % m.slots.len() as int,
        m.slots[m.index(m.reader)] == m.cell(0),
        m.len < m.slots.len() ==> m.slots[m.index(m.writer)].sequence == m.writer,
        m.len > 0 ==> m.cell(0).sequence == num::wrap(m.reader + 1) && m.cell(0).data is Some,
        m.len == 0 ==> m.cell(0).sequence == m.reader,
        0 <= m.index(m.writer) < m.slots.len(),
        0 <= m.index(m.reader) < m.slots.len(),
{
    let n = m.slots.len() as usize;
    num::lemma_word_count();
    num::lemma_mask_is_remainder(m.writer, n);
    num::lemma_mask_is_remainder(m.reader, n);
    num::lemma_wrapped_remainder(m.reader + m.len, n as int);
    num::lemma_wrap(m.reader + m.len);
    num::lemma_wrap(m.reader as int);
    assert(m.cell_settled(0));
    if m.len < n {
        assert(m.cell_settled(m.len as int));
    }
}

proof fn lemma_after_push<T>(m: Words<T>, item: T)
    requires
        m.settled(),
        m.len < m.cap,
    ensures
        after_push(m, item).settled(),
        after_push(m, item).items() =~= m.items().push(item),
{
    let p = after_push(m, item);
    let n = m.slots.len() as int;
    let len = m.len as int;
    lemma_settled_cursors(m);
    num::lemma_wrap(m.len + 1);
    num::lemma_wrap_add(m.reader + m.len, 1);
    assert forall|k: int| 0 <= k < n implies p.cell_settled(k) && (k != len ==> p.cell(k)
        == m.cell(k)) && (k == len ==> p.cell(k).data == Some(item)) by {
        assert(m.cell_settled(k));
        if k != len {
            lemma_distinct_slots(m.reader as int, k, len, n);
        }
    }
}

proof fn lemma_after_pop<T>(m: Words<T>)
    requires
        m.settled(),
        m.len > 0,
    ensures
        after_pop(m).settled(),
        m.items().len() > 0,
        m.items()[0] == m.cell(0).data->0,
        after_pop(m).items() =~= m.items().subrange(1, m.items().len() as int),
{
    let p = after_pop(m);
    let n = m.slots.len() as int;
    let r = m.reader as int;
    lemma_settled_cursors(m);
    num::lemma_word_count();
    num::lemma_wrap(m.len - 1);
    num::lemma_wrap_add(r + 1, m.len - 1);
    assert forall|k: int| 0 <= k < n implies p.cell_settled(k) && (k < n - 1 ==> p.cell(k)
        == m.cell(k + 1)) by {
        lemma_same_slot(r + 1, k, n);
        num::lemma_wrap_add(r + 1, k);
        num::lemma_wrap_add(r + 1, k + 1);
        if k < n - 1 {
            assert(m.cell_settled(k + 1));
            lemma_distinct_slots(r, k + 1, 0, n);
            assert((r + 1) + k == r + (k + 1));
        } else {
            vstd::arithmetic::div_mod::lemma_mod_add_multiples_vanish(r, n);
            assert((r + 1) + k == r + n);
        }
    }
}

/// How far an undisturbed push of `item` has come.
spec fn push_progress<T>(m: Words<T>, item: T, now: Words<T>, op: PushOp<T>) -> bool {
    let done = after_push(m, item);
    let i = m.index(m.writer);
    &&& op.rounds == 0
    &&& match op.at {
        PushAt::CheckLen => now == m && op.item == Some(item),
        PushAt::LoadWriter => now == m && m.len != m.cap && op.item == Some(item),
        PushAt::LoadSequence { ticket } => now == m && m.len != m.cap && op.item == Some(item)
            && ticket == m.writer,
        PushAt::Claim { ticket } => now == m && m.len != m.cap && op.item == Some(item) && ticket
            == m.writer,
        PushAt::Write { ticket } => now == (Words { writer: done.writer, ..m }) && m.len != m.cap
            && op.item == Some(item) && ticket == m.writer,
        PushAt::Publish { ticket } => now == (Words {
            writer: done.writer,
            slots: m.slots.update(i, Slot { data: Some(item), ..m.slots[i] }),
            ..m
        }) && m.len != m.cap && ticket == m.writer,
        PushAt::Count { ticket } => now == (Words { len: m.len, ..done }) && m.len != m.cap,
        PushAt::Done => false,
    }
}

/// How many steps an undisturbed push has left at most.
spec fn push_rank(at: PushAt) -> int {
    match at {
        PushAt::CheckLen => 7,
        PushAt::LoadWriter => 6,
        PushAt::LoadSequence { .. } => 5,
        PushAt::Claim { .. } => 4,
        PushAt::Write { .. } => 3,
        PushAt::Publish { .. } => 2,
        PushAt::Count { .. } => 1,
        PushAt::Done => 0,
    }
}

/// How far an undisturbed pop has come.
spec fn pop_progress<T>(m: Words<T>, now: Words<T>, op: PopOp<T>) -> bool {
    let done = after_pop(m);
    let i = m.index(m.reader);
    &&& op.rounds == 0
    &&& match op.at {
        PopAt::LoadReader => now == m,
        PopAt::LoadSequence { ticket } => now == m && ticket == m.reader,
        PopAt::Claim { ticket } => now == m && m.len > 0 && ticket == m.reader,
        PopAt::Take { ticket } => now == (Words { reader: done.reader, ..m }) && m.len > 0
            && ticket == m.reader,
        PopAt::Recycle { ticket } => now == (Words {
            reader: done.reader,
            slots: m.slots.update(i, Slot { data: None, ..m.slots[i] }),
            ..m
        }) && m.len > 0 && ticket == m.reader && op.item == m.cell(0).data,
        PopAt::Count { ticket } => now == (Words { len: m.len, ..done }) && m.len > 0 && op.item
            == m.cell(0).data,
        PopAt::Done => false,
    }
}

/// How many steps an undisturbed pop has left at most.
spec fn pop_rank(at: PopAt) -> int {
    match at {
        PopAt::LoadReader => 6,
        PopAt::LoadSequence { .. } => 5,
        PopAt::Claim { .. } => 4,
        PopAt::Take { .. } => 3,
        PopAt::Recycle { .. } => 2,
        PopAt::Count { .. } => 1,
        PopAt::Done => 0,
    }
}

impl<T> View for RingBuffer<T> {
    type V = Seq<T>;

    open spec fn view(&self) -> Seq<T> {
        self.words().items()
    }
}

impl<T> RingBuffer<T> {
    /// Whether the buffer is consistent and no operation is in progress.
    pub open spec fn wf(&self) -> bool {
        self.words().settled()
    }

    /// Creates a [`RingBuffer`] with room for `capacity` items, or for two where
    /// none are asked for. The number of slots is the next power of two, and at
    /// least two.
    #[must_use]
    pub fn with_capacity(capacity: usize) -> (r: RingBuffer<T>)
        requires
            capacity <= num::largest_power(),
        ensures
            r.wf(),
            r@ == Seq::<T>::empty(),
            r.reader == 0,
            r.writer == 0,
            r.cap == if capacity == 0 {
                2
            } else {
                capacity
            },
            num::rounds_up_to(
                if capacity <= 2 {
                    2
                } else {
                    capacity as int
                },
                r.slots@.len() as int,
            ),
    {
        let rounded: usize = num::next_power_of_two(capacity);
        let cap: usize = if rounded < 2 {
            2
        } else {
            rounded
        };
        proof {
            num::lemma_word_count();
            num::lemma_small_powers();
            assert forall|q: int| num::power_of_two(q) && 2 <= q && capacity <= q implies cap
                <= q by {}
            if rounded != 1 {
                num::lemma_next_power(1, rounded as int);
            }
        }
        let mut slots: Vec<Slot<T>> = Vec::with_capacity(cap);
        let mut i: usize = 0;
        while i < cap
            invariant
                i <= cap,
                slots@.len() == i,
                forall|k: int|
                    0 <= k < i ==> (#[trigger] slots@[k]).sequence == k && slots@[k].data is None,
            decreases cap - i,
        {
            slots.push(Slot { sequence: i, data: None });
            i = i + 1;
        }
        let r: RingBuffer<T> = RingBuffer {
            slots,
            cap: if capacity == 0 {
                2
            } else {
                capacity
            },
            mask: cap - 1,
            len: 0,
            writer: 0,
            reader: 0,
        };
        proof {
            let m = r.words();
            num::lemma_wrap(0);
            assert forall|k: int| 0 <= k < m.slots.len() implies m.cell_settled(k) by {
                num::lemma_wrap(k);
                vstd::arithmetic::div_mod::lemma_small_mod(k as nat, cap as nat);
            }
        }
        r
    }

    /// Returns how many items the Ringbuffer has.
    pub fn len(&self) -> (r: usize)
        ensures
            r == self@.len(),
    {
        self.len
    }

    /// Return if the ringbuffer is empty
    pub fn is_empty(&self) -> (r: bool)
        ensures
            r <==> self@ == Seq::<T>::empty(),
    {
        proof {
            if self.len == 0 {
                assert(self@ =~= Seq::<T>::empty());
            }
        }
        self.len() == 0
    }

    /// Pushes `item` to the tail of the buffer.
    ///
    /// This never waits: if the buffer holds as many items as were asked for,
    /// the item is returned unchanged.
    pub fn push(&mut self, item: T) -> (r: Result<(), PushError<T>>)
        requires
            old(self).wf(),
        ensures
            final(self).wf(),
            final(self).cap == old(self).cap,
            final(self).slots@.len() == old(self).slots@.len(),
            old(self)@.len() < old(self).cap ==> r == Ok::<(), PushError<T>>(()) && final(self)@
                == old(self)@.push(item),
            old(self)@.len() >= old(self).cap ==> r == Err::<(), PushError<T>>(
                PushError::Full(item),
            ) && final(self).words() == old(self).words(),
    {
        let mut op: PushOp<T> = PushOp::new(item);
        let ghost before = self.words();
        proof {
            lemma_settled_cursors(before);
            if before.len < before.cap {
                lemma_after_push(before, item);
            }
        }
        loop
            invariant
                before == old(self).words(),
                before.settled(),
                before.len < before.cap ==> after_push(before, item).settled() && after_push(
                    before,
                    item,
                ).items() =~= before.items().push(item),
                before.len < before.cap ==> before.slots[before.index(before.writer)].sequence
                    == before.writer,
                0 <= before.index(before.writer) < before.slots.len(),
                self.sized(),
                op.wf(),
                push_progress(before, item, self.words(), op),
            decreases push_rank(op.at),
        {
            let ghost op_was = op;
            match op.step(self) {
                Some(r) => {
                    assert(op_was.at is Count ==> self.words() =~= after_push(before, item));
                    return r;
                },
                None => {
                    assert(op_was.at is Publish ==> self.words() =~= (Words {
                        len: before.len,
                        ..after_push(before, item)
                    }));
                },
            }
        }
    }

    /// Pops the next item from the head of the buffer, if there is one.
    pub fn pop(&mut self) -> (r: Result<Option<T>, PopError>)
        requires
            old(self).wf(),
        ensures
            final(self).wf(),
            final(self).cap == old(self).cap,
            final(self).slots@.len() == old(self).slots@.len(),
            old(self)@.len() > 0 ==> r == Ok::<Option<T>, PopError>(Some(old(self)@[0]))
                && final(self)@ == old(self)@.subrange(1, old(self)@.len() as int),
            old(self)@.len() == 0 ==> r == Ok::<Option<T>, PopError>(None) && final(self).words()
                == old(self).words(),
    {
        let mut op: PopOp<T> = PopOp::new();
        let ghost before = self.words();
        proof {
            lemma_settled_cursors(before);
            num::lemma_word_count();
            num::lemma_wrap(-1);
            num::lemma_wrap(before.reader + 1);
            num::lemma_wrap(before.reader - num::wrap(before.reader + 1));
            if before.len > 0 {
                lemma_after_pop(before);
            }
        }
        loop
            invariant
                before == old(self).words(),
                before.settled(),
                before.len > 0 ==> {
                    &&& after_pop(before).settled()
                    &&& before.items()[0] == before.cell(0).data->0
                    &&& after_pop(before).items() =~= before.items().subrange(
                        1,
                        before.items().len() as int,
                    )
                    &&& before.cell(0).sequence == num::wrap(before.reader + 1)
                    &&& before.cell(0).data is Some
                },
                before.len == 0 ==> before.cell(0).sequence == before.reader,
                before.slots[before.index(before.reader)] == before.cell(0),
                behind(before.reader, num::wrap(before.reader + 1)),
                before.reader != num::wrap(before.reader + 1),
                0 <= before.index(before.reader) < before.slots.len(),
                self.sized(),
                op.wf(),
                pop_progress(before, self.words(), op),
            decreases pop_rank(op.at),
        {
            let ghost op_was = op;
            match op.step(self) {
                Some(r) => {
                    assert(op_was.at is Count ==> self.words() =~= after_pop(before));
                    return r;
                },
                None => {
                    assert(op_was.at is Recycle ==> self.words() =~= (Words {
                        len: before.len,
                        ..after_pop(before)
                    }));
                },
            }
        }
    }
}

impl<T> RingBuffer<T> {
    /// The shared words.
    pub open spec fn words(&self) -> Words<T> {
        Words {
            slots: self.slots@,
            cap: self.cap,
            mask: self.mask,
            len: self.len,
            writer: self.writer,
            reader: self.reader,
        }
    }

    /// Whether the mask matches the number of slots.
    pub open spec fn sized(&self) -> bool {
        self.slots@.len() == self.mask + 1
    }

    /// The slot of a ticket.
    fn slot_of(&self, ticket: usize) -> (i: usize)
        requires
            self.sized(),
        ensures
            i == self.words().index(ticket),
            i < self.slots@.len(),
    {
        let mask: usize = self.mask;
        assert(ticket & mask <= mask) by (bit_vector);
        ticket & mask
    }
}

} // verus!

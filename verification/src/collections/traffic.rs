//! Any number of producers and consumers on one ring buffer.
//!
//! [`Traffic`] is a ring buffer together with all the operations in progress
//! on it. Its operations advance one step at a time and in any order. The laws
//! below hold of every order, and however often the cursors have gone round the
//! range of a word: an item that was given a ticket is handed out under this
//! ticket exactly once, unchanged.
//!
//! A [`Ledger`] goes along, in which nothing overflows. Every word of the ring
//! buffer is the number in the ledger, reduced to the range of a word, and every
//! step of an operation does the same to both.

use super::ledger::{Ledger, PopPhase, PopRun, PushPhase, PushRun, Tape};
use super::ringbuffer::{PopAt, PopOp, PushAt, PushOp, RingBuffer, Slot, Words};
use crate::collections::ledger;
use crate::collections::ringbuffer;
use crate::num;
use vstd::arithmetic::div_mod::*;
use vstd::prelude::*;

verus! {

/// A ring buffer and the operations in progress on it.
#[verifier::reject_recursive_types(T)]
pub struct Traffic<T> {
    pub words: Words<T>,
    /// The pushes in progress, by caller.
    pub pushes: Map<int, PushOp<T>>,
    /// The pops in progress, by caller.
    pub pops: Map<int, PopOp<T>>,
    /// The tickets.
    pub ledger: Ledger<T>,
}

/// The words of a ring buffer with these contents.
pub open spec fn folded<T>(m: Tape<T>) -> Words<T> {
    Words {
        slots: Seq::new(
            m.slots.len(),
            |i: int| Slot { sequence: num::wrap(m.slots[i].sequence), data: m.slots[i].data },
        ),
        cap: m.cap,
        mask: (m.slots.len() - 1) as usize,
        len: m.len,
        writer: num::wrap(m.writer),
        reader: num::wrap(m.reader),
    }
}

/// A push with its ticket reduced to a word.
pub open spec fn folded_push<T>(op: PushRun<T>) -> PushOp<T> {
    PushOp {
        item: op.item,
        rounds: op.rounds,
        at: match op.at {
            PushPhase::CheckLen => PushAt::CheckLen,
            PushPhase::LoadWriter => PushAt::LoadWriter,
            PushPhase::LoadSequence { ticket } => PushAt::LoadSequence {
                ticket: num::wrap(ticket),
            },
            PushPhase::Claim { ticket } => PushAt::Claim { ticket: num::wrap(ticket) },
            PushPhase::Write { ticket } => PushAt::Write { ticket: num::wrap(ticket) },
            PushPhase::Publish { ticket } => PushAt::Publish { ticket: num::wrap(ticket) },
            PushPhase::Count { ticket } => PushAt::Count { ticket: num::wrap(ticket) },
            PushPhase::Done => PushAt::Done,
        },
    }
}

/// A pop with its ticket reduced to a word.
pub open spec fn folded_pop<T>(op: PopRun<T>) -> PopOp<T> {
    PopOp {
        item: op.item,
        rounds: op.rounds,
        at: match op.at {
            PopPhase::LoadReader => PopAt::LoadReader,
            PopPhase::LoadSequence { ticket } => PopAt::LoadSequence {
                ticket: num::wrap(ticket),
            },
            PopPhase::Claim { ticket } => PopAt::Claim { ticket: num::wrap(ticket) },
            PopPhase::Take { ticket } => PopAt::Take { ticket: num::wrap(ticket) },
            PopPhase::Recycle { ticket } => PopAt::Recycle { ticket: num::wrap(ticket) },
            PopPhase::Count { ticket } => PopAt::Count { ticket: num::wrap(ticket) },
            PopPhase::Done => PopAt::Done,
        },
    }
}

impl<T> Traffic<T> {
    /// A fresh ring buffer that nobody uses yet.
    pub open spec fn start(words: Words<T>) -> Traffic<T> {
        Traffic {
            words,
            pushes: Map::empty(),
            pops: Map::empty(),
            ledger: Ledger::start(words.slots.len(), words.cap),
        }
    }

    /// The item of every ticket that a push has claimed.
    pub open spec fn issued(self) -> Seq<T> {
        self.ledger.issued
    }

    /// The item that was handed out for a ticket, where a pop has returned it.
    pub open spec fn delivered(self) -> Map<int, T> {
        self.ledger.delivered
    }

    /// How many tickets have been claimed by pushes.
    pub open spec fn written(self) -> int {
        self.ledger.tape.writer
    }

    /// How many tickets have been claimed by pops.
    pub open spec fn read(self) -> int {
        self.ledger.tape.reader
    }

    /// `who` begins to push `item`.
    pub open spec fn start_push(self, who: int, item: T) -> Traffic<T> {
        Traffic {
            pushes: self.pushes.insert(who, PushOp::start(item)),
            ledger: self.ledger.start_push(who, item),
            ..self
        }
    }

    /// `who` begins to pop.
    pub open spec fn start_pop(self, who: int) -> Traffic<T> {
        Traffic {
            pops: self.pops.insert(who, PopOp::<T>::start()),
            ledger: self.ledger.start_pop(who),
            ..self
        }
    }

    /// The push of `who` performs its next step.
    pub open spec fn step_push(self, who: int) -> Traffic<T> {
        let (words, next, out) = ringbuffer::push_next(self.words, self.pushes[who]);
        Traffic {
            words,
            pushes: if out is Some {
                self.pushes.remove(who)
            } else {
                self.pushes.insert(who, next)
            },
            ledger: self.ledger.step_push(who),
            ..self
        }
    }

    /// The pop of `who` performs its next step.
    pub open spec fn step_pop(self, who: int) -> Traffic<T> {
        let (words, next, out) = ringbuffer::pop_next(self.words, self.pops[who]);
        Traffic {
            words,
            pops: if out is Some {
                self.pops.remove(who)
            } else {
                self.pops.insert(who, next)
            },
            ledger: self.ledger.step_pop(who),
            ..self
        }
    }

    /// Whether the write cursor has gone less than half the range of a word
    /// beyond this ticket.
    pub open spec fn recent(self, ticket: int) -> bool {
        self.written() + self.words.slots.len() + 1 - ticket < num::largest_power()
    }

    /// The cursor that the push of `who` has read and is about to rely on is a
    /// recent one.
    pub open spec fn push_recent(self, who: int) -> bool {
        match self.ledger.pushes[who].at {
            PushPhase::LoadSequence { ticket } => self.recent(ticket),
            PushPhase::Claim { ticket } => self.recent(ticket),
            _ => true,
        }
    }

    /// The cursor that the pop of `who` has read and is about to rely on is a
    /// recent one.
    pub open spec fn pop_recent(self, who: int) -> bool {
        match self.ledger.pops[who].at {
            PopPhase::LoadSequence { ticket } => self.recent(ticket),
            PopPhase::Claim { ticket } => self.recent(ticket),
            _ => true,
        }
    }

    /// What holds at every moment: the tickets are in order, and the words and
    /// operations are those of the ledger.
    pub open spec fn consistent(self) -> bool {
        &&& self.ledger.consistent()
        &&& self.words == folded(self.ledger.tape)
        &&& self.pushes.dom() == self.ledger.pushes.dom()
        &&& self.pops.dom() == self.ledger.pops.dom()
        &&& forall|who: int| #[trigger]
            self.pushes.contains_key(who) ==> self.pushes[who] == folded_push(
                self.ledger.pushes[who],
            )
        &&& forall|who: int| #[trigger]
            self.pops.contains_key(who) ==> self.pops[who] == folded_pop(self.ledger.pops[who])
    }
}

/// Two numbers less than the range of a word apart are the same word only if
/// they are the same number.
proof fn lemma_same_word(a: int, b: int)
    requires
        -num::word_count() < a - b < num::word_count(),
    ensures
        num::wrap(a) == num::wrap(b) <==> a == b,
{
    let m = num::word_count();
    num::lemma_word_count();
    num::lemma_wrap(a);
    num::lemma_wrap(b);
    if num::wrap(a) == num::wrap(b) {
        lemma_fundamental_div_mod(a, m);
        lemma_fundamental_div_mod(b, m);
        let d = a / m - b / m;
        assert(a - b == m * d) by (nonlinear_arith)
            requires
                a == m * (a / m) + a % m,
                b == m * (b / m) + b % m,
                a % m == b % m,
                d == a / m - b / m,
        ;
        assert(d == 0) by (nonlinear_arith)
            requires
                -m < m * d < m,
                m > 0,
        ;
    }
}

/// The signed distance of two words tells which of two numbers is the smaller
/// one, if they are less than half the range of a word apart.
proof fn lemma_behind(a: int, b: int)
    requires
        -num::largest_power() < a - b < num::largest_power(),
    ensures
        ringbuffer::behind(num::wrap(a), num::wrap(b)) <==> a < b,
{
    let m = num::word_count();
    num::lemma_word_count();
    num::lemma_wrap(a);
    num::lemma_wrap(b);
    num::lemma_wrap(num::wrap(a) - num::wrap(b));
    lemma_sub_mod_noop(a, b, m);
    num::lemma_wrap(a - b);
}

/// The words of a ring buffer have the slot of a ticket where the ledger has it.
proof fn lemma_index<T>(m: Tape<T>, t: int)
    requires
        num::power_of_two(m.slots.len() as int),
        2 <= m.slots.len() <= num::largest_power(),
    ensures
        folded(m).index(num::wrap(t)) == t % m.slots.len() as int,
        0 <= t % (m.slots.len() as int) < m.slots.len(),
{
    let n = m.slots.len() as int;
    num::lemma_word_count();
    num::lemma_wrap(t);
    num::lemma_mask_is_remainder(num::wrap(t), n as usize);
    num::lemma_wrapped_remainder(t, n);
    lemma_mod_bound(t, n);
}

/// A step of a push does the same to the words as to the ledger.
proof fn lemma_push_folds<T>(m: Tape<T>, op: PushRun<T>)
    requires
        num::power_of_two(m.slots.len() as int),
        2 <= m.slots.len() <= num::largest_power(),
        op.at matches PushPhase::LoadSequence { ticket } ==> -num::largest_power() < m.cell_of(
            ticket,
        ).sequence - ticket < num::largest_power(),
        op.at matches PushPhase::Claim { ticket } ==> -num::word_count() < m.writer - ticket
            < num::word_count(),
    ensures
        ({
            let (m2, op2, out) = ledger::push_next(m, op);
            ringbuffer::push_next(folded(m), folded_push(op)) == (
                folded(m2),
                folded_push(op2),
                out,
            )
        }),
{
    let (m2, op2, out) = ledger::push_next(m, op);
    let (w2, c2, o2) = ringbuffer::push_next(folded(m), folded_push(op));
    num::lemma_word_count();
    match op.at {
        PushPhase::LoadSequence { ticket } => {
            lemma_index(m, ticket);
            lemma_same_word(m.cell_of(ticket).sequence, ticket);
            lemma_behind(m.cell_of(ticket).sequence, ticket);
        },
        PushPhase::Claim { ticket } => {
            lemma_same_word(m.writer, ticket);
            num::lemma_wrap_add(ticket, 1);
        },
        PushPhase::Write { ticket } => {
            lemma_index(m, ticket);
        },
        PushPhase::Publish { ticket } => {
            lemma_index(m, ticket);
            num::lemma_wrap_add(ticket, 1);
        },
        _ => {},
    }
    assert(w2.slots =~= folded(m2).slots);
    assert(w2 =~= folded(m2));
}

/// A step of a pop does the same to the words as to the ledger.
proof fn lemma_pop_folds<T>(m: Tape<T>, op: PopRun<T>)
    requires
        num::power_of_two(m.slots.len() as int),
        2 <= m.slots.len() <= num::largest_power(),
        op.at matches PopPhase::LoadSequence { ticket } ==> -num::largest_power() < m.cell_of(
            ticket,
        ).sequence - (ticket + 1) < num::largest_power(),
        op.at matches PopPhase::Claim { ticket } ==> -num::word_count() < m.reader - ticket
            < num::word_count(),
    ensures
        ({
            let (m2, op2, out) = ledger::pop_next(m, op);
            ringbuffer::pop_next(folded(m), folded_pop(op)) == (folded(m2), folded_pop(op2), out)
        }),
{
    let (m2, op2, out) = ledger::pop_next(m, op);
    let (w2, c2, o2) = ringbuffer::pop_next(folded(m), folded_pop(op));
    num::lemma_word_count();
    match op.at {
        PopPhase::LoadSequence { ticket } => {
            lemma_index(m, ticket);
            num::lemma_wrap_add(ticket, 1);
            lemma_same_word(m.cell_of(ticket).sequence, ticket + 1);
            lemma_behind(m.cell_of(ticket).sequence, ticket + 1);
        },
        PopPhase::Claim { ticket } => {
            lemma_same_word(m.reader, ticket);
            num::lemma_wrap_add(ticket, 1);
        },
        PopPhase::Take { ticket } => {
            lemma_index(m, ticket);
        },
        PopPhase::Recycle { ticket } => {
            lemma_index(m, ticket);
            num::lemma_wrap_add(ticket, m.slots.len() as int);
        },
        _ => {},
    }
    assert(w2.slots =~= folded(m2).slots);
    assert(w2 =~= folded(m2));
}

/// The sequence number of a cell stays close to the write cursor.
proof fn lemma_sequence_near_writer<T>(w: Ledger<T>, t: int)
    requires
        w.consistent(),
        0 <= t,
    ensures
        w.tape.writer - w.n() <= w.tape.cell_of(t).sequence <= w.tape.writer + w.n(),
{
    lemma_mod_bound(t, w.n());
    assert(w.cell_ok(t % w.n()));
}

/// A fresh ring buffer is consistent.
pub proof fn fresh_traffic_is_consistent<T>(rb: RingBuffer<T>)
    requires
        rb.wf(),
        rb.reader == 0,
        rb.len == 0,
    ensures
        Traffic::start(rb.words()).consistent(),
{
    let words = rb.words();
    let w = Traffic::start(words);
    num::lemma_wrap(0);
    num::lemma_word_count();
    ledger::fresh_ledger_is_consistent::<T>(words.slots.len(), words.cap);
    assert forall|i: int| 0 <= i < words.slots.len() implies #[trigger] words.slots[i] == folded(
        w.ledger.tape,
    ).slots[i] by {
        assert(words.cell_settled(i));
        lemma_small_mod(i as nat, words.slots.len());
        num::lemma_wrap(i);
    }
    assert(words =~= folded(w.ledger.tape));
    assert(w.pushes.dom() =~= w.ledger.pushes.dom());
    assert(w.pops.dom() =~= w.ledger.pops.dom());
}

/// Beginning a push keeps everything consistent.
pub proof fn start_push_keeps_consistent<T>(w: Traffic<T>, who: int, item: T)
    requires
        w.consistent(),
        !w.pushes.contains_key(who),
    ensures
        w.start_push(who, item).consistent(),
{
    let v = w.start_push(who, item);
    ledger::start_push_keeps_consistent(w.ledger, who, item);
    assert(v.pushes.dom() =~= v.ledger.pushes.dom());
    assert forall|p: int| #[trigger] v.pushes.contains_key(p) implies v.pushes[p] == folded_push(
        v.ledger.pushes[p],
    ) by {
        if p != who {
            assert(w.pushes.contains_key(p));
        }
    }
}

/// Beginning a pop keeps everything consistent.
pub proof fn start_pop_keeps_consistent<T>(w: Traffic<T>, who: int)
    requires
        w.consistent(),
        !w.pops.contains_key(who),
    ensures
        w.start_pop(who).consistent(),
{
    let v = w.start_pop(who);
    ledger::start_pop_keeps_consistent(w.ledger, who);
    assert(v.pops.dom() =~= v.ledger.pops.dom());
    assert forall|p: int| #[trigger] v.pops.contains_key(p) implies v.pops[p] == folded_pop(
        v.ledger.pops[p],
    ) by {
        if p != who {
            assert(w.pops.contains_key(p));
        }
    }
}

/// Every step of every push keeps everything consistent, however far the cursors
/// have come. This holds unless the push relies on a cursor that it has read so
/// long ago that the ticket could have come back.
pub proof fn step_push_keeps_consistent<T>(w: Traffic<T>, who: int)
    requires
        w.consistent(),
        w.pushes.contains_key(who),
        w.push_recent(who),
    ensures
        w.step_push(who).consistent(),
{
    let v = w.step_push(who);
    let op = w.ledger.pushes[who];
    num::lemma_word_count();
    assert(w.ledger.pushes.contains_key(who));
    assert(w.ledger.push_ok(op));
    ledger::step_push_keeps_consistent(w.ledger, who);
    if let PushPhase::LoadSequence { ticket } = op.at {
        lemma_sequence_near_writer(w.ledger, ticket);
    }
    lemma_push_folds(w.ledger.tape, op);
    assert(v.pushes.dom() =~= v.ledger.pushes.dom());
    assert forall|p: int| #[trigger] v.pushes.contains_key(p) implies v.pushes[p] == folded_push(
        v.ledger.pushes[p],
    ) by {
        if p != who {
            assert(w.pushes.contains_key(p));
        }
    }
    assert forall|p: int| #[trigger] v.pops.contains_key(p) implies v.pops[p] == folded_pop(
        v.ledger.pops[p],
    ) by {
        assert(w.pops.contains_key(p));
    }
}

/// Every step of every pop keeps everything consistent, however far the cursors
/// have come. This holds unless the pop relies on a cursor that it has read so
/// long ago that the ticket could have come back.
pub proof fn step_pop_keeps_consistent<T>(w: Traffic<T>, who: int)
    requires
        w.consistent(),
        w.pops.contains_key(who),
        w.pop_recent(who),
    ensures
        w.step_pop(who).consistent(),
{
    let v = w.step_pop(who);
    let op = w.ledger.pops[who];
    num::lemma_word_count();
    assert(w.ledger.pops.contains_key(who));
    assert(w.ledger.pop_ok(op));
    ledger::step_pop_keeps_consistent(w.ledger, who);
    if let PopPhase::LoadSequence { ticket } = op.at {
        lemma_sequence_near_writer(w.ledger, ticket);
    }
    lemma_pop_folds(w.ledger.tape, op);
    assert(v.pops.dom() =~= v.ledger.pops.dom());
    assert forall|p: int| #[trigger] v.pops.contains_key(p) implies v.pops[p] == folded_pop(
        v.ledger.pops[p],
    ) by {
        if p != who {
            assert(w.pops.contains_key(p));
        }
    }
    assert forall|p: int| #[trigger] v.pushes.contains_key(p) implies v.pushes[p] == folded_push(
        v.ledger.pushes[p],
    ) by {
        assert(w.pushes.contains_key(p));
    }
}

/// A pop that returns an item returns exactly the item that was issued with
/// the ticket it holds, and it is the only one ever to return for this ticket.
pub proof fn popped_item_is_the_issued_one<T>(w: Traffic<T>, who: int)
    requires
        w.consistent(),
        w.pops.contains_key(who),
        ringbuffer::pop_next(w.words, w.pops[who]).2 matches Some(Ok(Some(_))),
    ensures
        ({
            let ticket = ledger::pop_ticket(w.ledger.pops[who])->0;
            &&& ledger::pop_ticket(w.ledger.pops[who]) is Some
            &&& 0 <= ticket < w.issued().len()
            &&& !w.delivered().contains_key(ticket)
            &&& ringbuffer::pop_next(w.words, w.pops[who]).2->0 == Ok::<
                Option<T>,
                ringbuffer::PopError,
            >(Some(w.issued()[ticket]))
            &&& w.step_pop(who).delivered() == w.delivered().insert(ticket, w.issued()[ticket])
        }),
{
    let op = w.ledger.pops[who];
    assert(w.ledger.pops.contains_key(who));
    assert(w.pops[who].at is Count);
    assert(op.at is Count);
    ledger::popped_item_is_the_issued_one(w.ledger, who);
}

/// Once no operation is in progress nothing is lost: exactly the tickets that
/// pops have claimed have been handed out, each with the item issued for it,
/// the items of all later tickets wait in the buffer in the order of their
/// tickets, and the counter tells how many they are.
pub proof fn nothing_is_lost_when_quiet<T>(w: Traffic<T>)
    requires
        w.consistent(),
        w.pushes.dom() == Set::<int>::empty(),
        w.pops.dom() == Set::<int>::empty(),
    ensures
        w.issued().len() == w.written(),
        forall|t: int| #[trigger] w.delivered().contains_key(t) <==> 0 <= t < w.read(),
        forall|t: int| 0 <= t < w.read() ==> #[trigger] w.delivered()[t] == w.issued()[t],
        w.words.len == w.written() - w.read(),
        w.words.items() == w.issued().subrange(w.read(), w.written()),
{
    ledger::nothing_is_lost_when_quiet(w.ledger);
    num::lemma_word_count();
    let tape = w.ledger.tape;
    let n = w.ledger.n();
    let items = w.issued().subrange(w.read(), w.written());
    assert forall|k: int| 0 <= k < w.words.len implies w.words.cell(k).data->0 == items[k] by {
        let t = w.read() + k;
        num::lemma_wrap(w.read());
        num::lemma_wrapped_remainder(w.read(), n);
        lemma_add_mod_noop(num::wrap(w.read()) as int, k, n);
        lemma_add_mod_noop(w.read(), k, n);
        assert((num::wrap(w.read()) + k) % n == t % n);
        lemma_mod_bound(t, n);
        assert(tape.cell_of(t).data == Some(w.issued()[t]));
    }
    assert(w.words.items() =~= items);
}

} // verus!

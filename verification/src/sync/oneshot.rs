//! A channel for a single item.

use core::marker::PhantomData;
use vstd::prelude::*;

verus! {

/// No item has been sent.
pub const EMPTY: usize = 0;

/// The item is being put into its place.
pub const COPYING: usize = 1;

/// The item is in its place, or has been taken.
pub const DONE: usize = 2;

/// What the two sides of a oneshot channel share.
#[derive(Debug)]
pub struct Oneshot<T> {
    pub lock: usize,
    pub value: Option<T>,
}

/// Sender side of the oneshot.
#[derive(Debug)]
pub struct Sender<T> {
    pub target: PhantomData<T>,
}

/// Receiver side of the oneshot channel.
#[derive(Debug)]
pub struct Receiver<T> {
    pub target: PhantomData<T>,
}

/// Creates a `oneshot` channel. Which means the sender can only send one item,
/// and the receiver side can only take one item.
pub fn oneshot<T>() -> (r: (Oneshot<T>, Sender<T>, Receiver<T>))
    ensures
        r.0.lock == EMPTY,
        r.0.value is None,
{
    (
        Oneshot { lock: EMPTY, value: None },
        Sender { target: PhantomData },
        Receiver { target: PhantomData },
    )
}

/// What a send does next.
#[derive(Clone, Copy, Debug, PartialEq, Eq, Structural)]
pub enum SendStep {
    /// Takes the place of the item.
    Lock,
    /// Puts the item into its place.
    Write,
    /// Makes the item known.
    Publish,
    /// Nothing: the item has been sent.
    Done,
}

/// A send in progress.
#[derive(Debug)]
pub struct SendOp<T> {
    pub item: Option<T>,
    pub at: SendStep,
}

/// One step of a send with `item` left to put into its place, on a channel with
/// this word and this value.
pub open spec fn send_next<T>(
    at: SendStep,
    item: Option<T>,
    lock: usize,
    value: Option<T>,
) -> (SendStep, Option<T>, usize, Option<T>) {
    match at {
        SendStep::Lock => (SendStep::Write, item, COPYING, value),
        SendStep::Write => (SendStep::Publish, None, lock, item),
        SendStep::Publish => (SendStep::Done, item, DONE, value),
        SendStep::Done => (at, item, lock, value),
    }
}

/// What an attempt to receive gives on a channel with this word and this value,
/// and the value that it leaves.
pub open spec fn receive_next<T>(lock: usize, value: Option<T>) -> (Option<T>, Option<T>) {
    if lock == DONE {
        (value, None)
    } else {
        (None, value)
    }
}

/// A receive takes the item exactly if it has been published, and leaves nothing
/// behind; otherwise it takes nothing and leaves everything. A second receive
/// finds nothing.
pub proof fn only_a_published_item_is_taken<T>(lock: usize, value: Option<T>)
    ensures
        receive_next(lock, value).0 is Some <==> lock == 2 && value is Some,
        receive_next(lock, value).0 is Some ==> receive_next(lock, value).0 == value,
        receive_next(lock, value).0 is Some ==> receive_next(lock, value).1 is None,
        receive_next(lock, value).0 is None ==> receive_next(lock, value).1 == value,
        receive_next(lock, receive_next(lock, value).1).0 is None,
{
}

/// A send moves its item from the sender to the cell in one step, and says so
/// before and after: nothing is received before its last step.
pub proof fn item_is_written_between_two_marks<T>(
    at: SendStep,
    item: Option<T>,
    lock: usize,
    value: Option<T>,
)
    ensures
        ({
            let (after, left, mark, held) = send_next(at, item, lock, value);
            &&& (left, held) != (item, value) ==> at == SendStep::Write && left is None && held
                == item
            &&& mark != lock ==> at == SendStep::Lock && mark == 1 || at == SendStep::Publish && mark
                == 2
            &&& at == SendStep::Lock ==> after == SendStep::Write && mark == 1
            &&& at == SendStep::Write ==> after == SendStep::Publish && held == item && left is None
            &&& at == SendStep::Publish ==> after == SendStep::Done && mark == 2
            &&& at == SendStep::Done ==> after == SendStep::Done
        }),
{
}

impl<T> SendOp<T> {
    /// A send that has not begun.
    pub fn start(item: T) -> (r: Self)
        ensures
            r.item == Some(item),
            r.at == SendStep::Lock,
    {
        SendOp { item: Some(item), at: SendStep::Lock }
    }

    /// Performs one step. The word is nobody else's to change while a send is
    /// in progress.
    pub fn step(&mut self, shared: &mut Oneshot<T>)
        requires
            old(self).at == SendStep::Lock ==> old(shared).lock == EMPTY,
            old(self).at == SendStep::Publish ==> old(shared).lock == COPYING,
        ensures
            (final(self).at, final(self).item, final(shared).lock, final(shared).value)
                == send_next(old(self).at, old(self).item, old(shared).lock, old(shared).value),
    {
        match self.at {
            SendStep::Lock => {
                shared.lock = COPYING;
                self.at = SendStep::Write;
            },
            SendStep::Write => {
                shared.value = self.item.take();
                self.at = SendStep::Publish;
            },
            SendStep::Publish => {
                shared.lock = DONE;
                self.at = SendStep::Done;
            },
            SendStep::Done => {},
        }
    }
}

impl<T> Sender<T> {
    /// Sends the unique value for the channel. That consumes the `Sender`.
    pub fn send(self, shared: &mut Oneshot<T>, item: T)
        requires
            old(shared).lock == EMPTY,
        ensures
            final(shared).lock == DONE,
            final(shared).value == Some(item),
    {
        let mut op = SendOp::start(item);
        op.step(shared);
        op.step(shared);
        op.step(shared);
    }
}

impl<T> Receiver<T> {
    /// Checks if the channel has its unique value: it has been sent and not
    /// been taken.
    #[must_use]
    pub fn has_value(&self, shared: &Oneshot<T>) -> (r: bool)
        ensures
            r == (shared.lock == DONE && shared.value is Some),
    {
        shared.lock == DONE && shared.value.is_some()
    }

    /// Takes the channel's unique value, if there is any.
    /// If not, returns `None`.
    #[must_use]
    pub fn try_recv(&self, shared: &mut Oneshot<T>) -> (r: Option<T>)
        ensures
            final(shared).lock == old(shared).lock,
            (r, final(shared).value) == receive_next(old(shared).lock, old(shared).value),
            r is Some ==> r == old(shared).value && final(shared).value is None,
            r is None ==> final(shared).value == old(shared).value,
            r is Some <==> old(shared).lock == DONE && old(shared).value is Some,
    {
        if self.has_value(shared) {
            shared.value.take()
        } else {
            None
        }
    }
}

/// A oneshot channel, the send in progress on it, and what has been received.
pub struct Transfer<T> {
    pub lock: usize,
    pub value: Option<T>,
    pub item: T,
    /// The item while it has not been put into its place.
    pub left: Option<T>,
    pub at: SendStep,
    pub received: Seq<T>,
}

impl<T> Transfer<T> {
    /// A channel on which `item` is about to be sent.
    pub open spec fn start(item: T) -> Transfer<T> {
        Transfer {
            lock: EMPTY,
            value: None,
            item,
            left: Some(item),
            at: SendStep::Lock,
            received: Seq::empty(),
        }
    }

    /// What always holds: the item becomes known only when it is in its place,
    /// and it is in its place or has been received, once.
    pub open spec fn consistent(self) -> bool {
        match self.at {
            SendStep::Lock => {
                self.lock == EMPTY && self.left == Some(self.item) && self.received.len() == 0
            },
            SendStep::Write => {
                self.lock == COPYING && self.left == Some(self.item) && self.received.len() == 0
            },
            SendStep::Publish => {
                self.lock == COPYING && self.value == Some(self.item) && self.received.len() == 0
            },
            SendStep::Done => {
                &&& self.lock == DONE
                &&& self.value == Some(self.item) && self.received.len() == 0 || self.value is None
                    && self.received == seq![self.item]
            },
        }
    }

    /// One step of the send.
    pub open spec fn step_send(self) -> Transfer<T> {
        let (at, left, lock, value) = send_next(self.at, self.left, self.lock, self.value);
        Transfer { at, left, lock, value, ..self }
    }

    /// An attempt to receive.
    pub open spec fn attempt_receive(self) -> Transfer<T> {
        let (got, value) = receive_next(self.lock, self.value);
        Transfer {
            value,
            received: match got {
                None => self.received,
                Some(item) => self.received.push(item),
            },
            ..self
        }
    }
}

/// However a send and attempts to receive are interleaved, the receiver gets
/// nothing but the item that was sent, and gets it at most once.
pub proof fn item_is_received_at_most_once<T>(t: Transfer<T>)
    requires
        t.consistent(),
    ensures
        t.step_send().consistent(),
        t.attempt_receive().consistent(),
        t.received.len() <= 1,
        t.received.len() == 1 ==> t.received[0] == t.item,
{
    if t.lock == DONE && t.value is Some {
        assert(t.attempt_receive().received =~= seq![t.item]);
    }
}

/// Once the send is complete, an attempt to receive leaves the item received.
pub proof fn sent_item_is_received<T>(t: Transfer<T>)
    requires
        t.consistent(),
        t.at == SendStep::Done,
    ensures
        t.attempt_receive().received == seq![t.item],
{
    assert(t.attempt_receive().received =~= seq![t.item]);
}

/// A channel starts in order.
pub proof fn fresh_oneshot_is_consistent<T>(item: T)
    ensures
        Transfer::start(item).consistent(),
{
}

} // verus!

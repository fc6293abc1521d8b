//! A bounded channel with a sender and a receiver side.
//!
//! The items wait in a ring buffer. A send or a receive that cannot go on says
//! so, and the caller waits until the channel has changed; every outcome that
//! changes the channel, or finds it closed, is a reason to wake those that
//! wait.
//!
//! [`SendOp`] and [`RecvOp`] are the two operations taken apart: each call of
//! `step` is one access to the channel. [`Sender::send`] and [`Receiver::recv`]
//! run the steps without interference.

use crate::collections::ringbuffer::{PushError, RingBuffer};
use crate::num;
use core::marker::PhantomData;
use vstd::prelude::*;
use vstd::seq_lib::*;

verus! {

/// The state of a channel.
#[verifier::ext_equal]
#[verifier::reject_recursive_types(T)]
pub struct ChannelView<T> {
    /// How many senders there are.
    pub senders: int,
    /// How many receivers there are.
    pub receivers: int,
    /// The items that wait, in the order in which they were sent.
    pub items: Seq<T>,
    /// How many items may wait.
    pub capacity: int,
}

impl<T> ChannelView<T> {
    /// Whether one of the sides has nobody left.
    pub open spec fn closed(self) -> bool {
        self.senders == 0 || self.receivers == 0
    }

    /// The channel with an item more.
    pub open spec fn with_item(self, item: T) -> ChannelView<T> {
        ChannelView { items: self.items.push(item), ..self }
    }

    /// The channel without its first item.
    pub open spec fn without_first(self) -> ChannelView<T> {
        ChannelView { items: self.items.drop_first(), ..self }
    }
}

/// What both sides of a channel share.
#[derive(Debug)]
pub struct Channel<T> {
    pub senders: usize,
    pub receivers: usize,
    /// Whether someone has the lock under which sleepers are woken.
    pub waiting: bool,
    pub buffer: RingBuffer<T>,
}

impl<T> View for Channel<T> {
    type V = ChannelView<T>;

    open spec fn view(&self) -> ChannelView<T> {
        ChannelView {
            senders: self.senders as int,
            receivers: self.receivers as int,
            items: self.buffer@,
            capacity: self.buffer.cap as int,
        }
    }
}

/// The sending half of a bounded channel.
#[derive(Debug)]
pub struct Sender<T> {
    pub target: PhantomData<T>,
}

/// The receiving half of a bounded channel.
#[derive(Debug)]
pub struct Receiver<T> {
    pub target: PhantomData<T>,
}

/// What a thread does next.
#[derive(Clone, Copy, Debug, PartialEq, Eq, Structural)]
pub enum Stage {
    /// A sender looks whether the channel is closed.
    SendCheck,
    /// A sender tries to send without the lock.
    SendFast,
    /// A sender takes the lock.
    SendLock,
    /// A sender tries to send under the lock.
    SendSlow,
    /// A sender looks once more whether the channel is closed.
    SendLook,
    /// A sender goes to sleep.
    SendDoze,
    /// A sender sleeps.
    SendAsleep,
    /// A receiver tries to receive without the lock.
    RecvFast,
    /// A receiver takes the lock.
    RecvLock,
    /// A receiver tries to receive under the lock.
    RecvSlow,
    /// A receiver looks whether the channel is closed.
    RecvClosed,
    /// A receiver looks once more whether the channel is closed.
    RecvLook,
    /// A receiver goes to sleep.
    RecvDoze,
    /// A receiver sleeps.
    RecvAsleep,
    /// A sender goes.
    DropSender,
    /// A receiver goes.
    DropReceiver,
    /// The thread takes the lock to wake the sleepers.
    Alarm,
    /// The thread wakes the sleepers and gives the lock back.
    Ring,
    /// Nothing.
    Done,
}

/// The next stage of a thread that finds the channel closed or not, succeeds in
/// what it tries or not, and finds the lock held or not; and whether the lock is
/// held afterwards.
pub open spec fn stage_next(s: Stage, closed: bool, success: bool, held: bool) -> (Stage, bool) {
    match s {
        Stage::SendCheck => if closed {
            (Stage::Alarm, held)
        } else {
            (Stage::SendFast, held)
        },
        Stage::SendFast => if success {
            (Stage::Alarm, held)
        } else {
            (Stage::SendLock, held)
        },
        Stage::SendLock => if held {
            (Stage::SendLock, held)
        } else {
            (Stage::SendSlow, true)
        },
        Stage::SendSlow => if success {
            (Stage::Ring, held)
        } else {
            (Stage::SendLook, held)
        },
        Stage::SendLook => if closed {
            (Stage::SendCheck, false)
        } else {
            (Stage::SendDoze, held)
        },
        Stage::SendDoze => (Stage::SendAsleep, false),
        Stage::RecvFast => if success {
            (Stage::Alarm, held)
        } else {
            (Stage::RecvLock, held)
        },
        Stage::RecvLock => if held {
            (Stage::RecvLock, held)
        } else {
            (Stage::RecvSlow, true)
        },
        Stage::RecvSlow => if success {
            (Stage::Ring, held)
        } else {
            (Stage::RecvClosed, held)
        },
        Stage::RecvClosed => if closed {
            (Stage::Ring, held)
        } else {
            (Stage::RecvLook, held)
        },
        Stage::RecvLook => if closed {
            (Stage::RecvFast, false)
        } else {
            (Stage::RecvDoze, held)
        },
        Stage::RecvDoze => (Stage::RecvAsleep, false),
        Stage::DropSender | Stage::DropReceiver => (Stage::Alarm, held),
        Stage::Alarm => if held {
            (Stage::Alarm, held)
        } else {
            (Stage::Ring, true)
        },
        Stage::Ring => (Stage::Done, false),
        Stage::SendAsleep | Stage::RecvAsleep | Stage::Done => (s, held),
    }
}

/// A send in progress.
#[derive(Debug)]
pub struct SendOp<T> {
    /// The item while it has not been sent.
    pub item: Option<T>,
    pub at: Stage,
}

/// A receive in progress.
#[derive(Debug)]
pub struct RecvOp<T> {
    /// The item once it has been received.
    pub item: Option<T>,
    pub at: Stage,
}

/// What an attempt to send comes to.
#[derive(Debug)]
pub enum Sending<T> {
    /// The item has been sent; those that wait are to be woken.
    Sent,
    /// The channel is closed; those that wait are to be woken.
    Closed,
    /// The channel is full: wait, then try again with the item.
    Wait(T),
}

/// What an attempt to receive comes to.
#[derive(Debug)]
pub enum Receiving<T> {
    /// An item has been received; those that wait are to be woken.
    Item(T),
    /// The channel is empty and closed; those that wait are to be woken.
    Closed,
    /// The channel is empty: wait, then try again.
    Wait,
}

/// Creates a bounded channel with room for `capacity` items, which must not be
/// 0.
pub fn bounded<T>(capacity: usize) -> (r: (Channel<T>, Sender<T>, Receiver<T>))
    requires
        0 < capacity <= num::largest_power(),
    ensures
        r.0.wf(),
        !r.0.waiting,
        r.0@ == (ChannelView {
            senders: 1,
            receivers: 1,
            items: Seq::<T>::empty(),
            capacity: capacity as int,
        }),
{
    let buffer: RingBuffer<T> = RingBuffer::with_capacity(capacity);
    let channel = Channel { senders: 1, receivers: 1, waiting: false, buffer };
    (channel, Sender { target: PhantomData }, Receiver { target: PhantomData })
}

impl<T> Channel<T> {
    /// The buffer is in order.
    pub open spec fn wf(&self) -> bool {
        self.buffer.wf()
    }

    /// Whether one of the sides has nobody left.
    pub fn is_closed(&self) -> (r: bool)
        ensures
            r == self@.closed(),
            self.senders == 0 ==> r,
            self.receivers == 0 ==> r,
            self.senders > 0 && self.receivers > 0 ==> !r,
    {
        let no_senders: bool = self.senders == 0;
        let no_receivers: bool = self.receivers == 0;
        no_senders || no_receivers
    }
}

impl Stage {
    /// The next stage where nothing is tried and nothing is looked at, on a
    /// channel whose lock is `waiting`.
    fn pass(&mut self, waiting: &mut bool)
        requires
            *old(self) != Stage::SendCheck,
            *old(self) != Stage::SendFast,
            *old(self) != Stage::SendSlow,
            *old(self) != Stage::SendLook,
            *old(self) != Stage::RecvFast,
            *old(self) != Stage::RecvSlow,
            *old(self) != Stage::RecvClosed,
            *old(self) != Stage::RecvLook,
        ensures
            forall|closed: bool, success: bool|
                (*final(self), *final(waiting)) == #[trigger] stage_next(
                    *old(self),
                    closed,
                    success,
                    *old(waiting),
                ),
    {
        match *self {
            Stage::SendLock | Stage::RecvLock | Stage::Alarm => {
                if !*waiting {
                    *waiting = true;
                    *self = match *self {
                        Stage::SendLock => Stage::SendSlow,
                        Stage::RecvLock => Stage::RecvSlow,
                        _ => Stage::Ring,
                    };
                }
            },
            Stage::SendDoze => {
                *waiting = false;
                *self = Stage::SendAsleep;
            },
            Stage::RecvDoze => {
                *waiting = false;
                *self = Stage::RecvAsleep;
            },
            Stage::Ring => {
                *waiting = false;
                *self = Stage::Done;
            },
            Stage::DropSender | Stage::DropReceiver => {
                *self = Stage::Alarm;
            },
            _ => {},
        }
    }
}

impl<T> SendOp<T> {
    /// Whether the send has its item where it needs it.
    pub open spec fn wf(&self) -> bool {
        match self.at {
            Stage::SendCheck
            | Stage::SendFast
            | Stage::SendLock
            | Stage::SendSlow
            | Stage::SendLook
            | Stage::SendDoze
            | Stage::SendAsleep => self.item is Some,
            Stage::Alarm | Stage::Ring | Stage::Done => true,
            _ => false,
        }
    }

    /// A send that has not begun.
    pub fn start(item: T) -> (r: Self)
        ensures
            r.wf(),
            r.item == Some(item),
            r.at == Stage::SendCheck,
    {
        SendOp { item: Some(item), at: Stage::SendCheck }
    }

    /// Performs one step. An attempt to send succeeds if there is room.
    pub fn step(&mut self, channel: &mut Channel<T>)
        requires
            old(self).wf(),
            old(channel).wf(),
        ensures
            final(self).wf(),
            final(channel).wf(),
            (final(self).at, final(channel).waiting) == stage_next(
                old(self).at,
                old(channel)@.closed(),
                old(channel)@.items.len() < old(channel)@.capacity,
                old(channel).waiting,
            ),
            if (old(self).at == Stage::SendFast || old(self).at == Stage::SendSlow) && old(
                channel,
            )@.items.len() < old(channel)@.capacity {
                final(channel)@ == old(channel)@.with_item(old(self).item->0) && final(self).item
                    is None
            } else {
                final(channel)@ == old(channel)@ && final(self).item == old(self).item
            },
    {
        match self.at {
            Stage::SendCheck => {
                self.at = if channel.is_closed() {
                    Stage::Alarm
                } else {
                    Stage::SendFast
                };
            },
            Stage::SendFast | Stage::SendSlow => {
                let fast: bool = self.at == Stage::SendFast;
                if let Some(item) = self.item.take() {
                    match channel.buffer.push(item) {
                        Ok(()) => {},
                        Err(PushError::Full(item)) => {
                            self.item = Some(item);
                        },
                        Err(PushError::HighContention(item)) => {
                            self.item = Some(item);
                        },
                    }
                }
                self.at = if self.item.is_none() {
                    if fast {
                        Stage::Alarm
                    } else {
                        Stage::Ring
                    }
                } else if fast {
                    Stage::SendLock
                } else {
                    Stage::SendLook
                };
            },
            Stage::SendLook => {
                if channel.is_closed() {
                    channel.waiting = false;
                    self.at = Stage::SendCheck;
                } else {
                    self.at = Stage::SendDoze;
                }
            },
            _ => {
                self.at.pass(&mut channel.waiting);
                proof {
                    let next = stage_next(old(self).at, old(channel)@.closed(), old(
                        channel,
                    )@.items.len() < old(channel)@.capacity, old(channel).waiting);
                    assert((self.at, channel.waiting) == next);
                }
            },
        }
    }
}

impl<T> RecvOp<T> {
    /// Whether the receive is at a stage of a receiver.
    pub open spec fn wf(&self) -> bool {
        match self.at {
            Stage::RecvFast
            | Stage::RecvLock
            | Stage::RecvSlow
            | Stage::RecvClosed
            | Stage::RecvLook
            | Stage::RecvDoze
            | Stage::RecvAsleep => self.item is None,
            Stage::Alarm | Stage::Ring | Stage::Done => true,
            _ => false,
        }
    }

    /// A receive that has not begun.
    pub fn start() -> (r: Self)
        ensures
            r.wf(),
            r.item is None,
            r.at == Stage::RecvFast,
    {
        RecvOp { item: None, at: Stage::RecvFast }
    }

    /// Performs one step. An attempt to receive succeeds if there is an item.
    pub fn step(&mut self, channel: &mut Channel<T>)
        requires
            old(self).wf(),
            old(channel).wf(),
        ensures
            final(self).wf(),
            final(channel).wf(),
            (final(self).at, final(channel).waiting) == stage_next(
                old(self).at,
                old(channel)@.closed(),
                old(channel)@.items.len() > 0,
                old(channel).waiting,
            ),
            if (old(self).at == Stage::RecvFast || old(self).at == Stage::RecvSlow) && old(
                channel,
            )@.items.len() > 0 {
                final(channel)@ == old(channel)@.without_first() && final(self).item == Some(
                    old(channel)@.items[0],
                )
            } else {
                final(channel)@ == old(channel)@ && final(self).item == old(self).item
            },
    {
        match self.at {
            Stage::RecvFast | Stage::RecvSlow => {
                let fast: bool = self.at == Stage::RecvFast;
                let ghost before = channel@;
                if let Ok(Some(item)) = channel.buffer.pop() {
                    self.item = Some(item);
                    self.at = if fast {
                        Stage::Alarm
                    } else {
                        Stage::Ring
                    };
                    assert(channel@.items =~= before.items.drop_first());
                } else {
                    self.at = if fast {
                        Stage::RecvLock
                    } else {
                        Stage::RecvClosed
                    };
                    assert(channel@ =~= before);
                }
            },
            Stage::RecvClosed => {
                self.at = if channel.is_closed() {
                    Stage::Ring
                } else {
                    Stage::RecvLook
                };
            },
            Stage::RecvLook => {
                if channel.is_closed() {
                    channel.waiting = false;
                    self.at = Stage::RecvFast;
                } else {
                    self.at = Stage::RecvDoze;
                }
            },
            _ => {
                self.at.pass(&mut channel.waiting);
                proof {
                    let next = stage_next(old(self).at, old(channel)@.closed(), old(
                        channel,
                    )@.items.len() > 0, old(channel).waiting);
                    assert((self.at, channel.waiting) == next);
                }
            },
        }
    }
}

impl<T> Sender<T> {
    /// Another sender for the same channel.
    pub fn duplicate(&self, channel: &mut Channel<T>) -> (r: Sender<T>)
        requires
            old(channel).wf(),
            old(channel)@.senders < usize::MAX,
        ensures
            final(channel).wf(),
            final(channel).waiting == old(channel).waiting,
            final(channel)@ == (ChannelView {
                senders: old(channel)@.senders + 1,
                ..old(channel)@
            }),
    {
        channel.senders = channel.senders + 1;
        Sender { target: PhantomData }
    }

    /// Gives this sender up; those that wait are to be woken.
    pub fn release(self, channel: &mut Channel<T>)
        requires
            old(channel).wf(),
            old(channel)@.senders > 0,
        ensures
            final(channel).wf(),
            final(channel).waiting == old(channel).waiting,
            final(channel)@ == (ChannelView {
                senders: old(channel)@.senders - 1,
                ..old(channel)@
            }),
    {
        channel.senders = channel.senders - 1;
    }

    /// Sends `item` to the channel, if there is room and the channel is not
    /// closed.
    pub fn send(&self, channel: &mut Channel<T>, item: T) -> (r: Sending<T>)
        requires
            old(channel).wf(),
            !old(channel).waiting,
        ensures
            final(channel).wf(),
            !final(channel).waiting,
            if old(channel)@.closed() {
                r is Closed && final(channel)@ == old(channel)@
            } else if old(channel)@.items.len() < old(channel)@.capacity {
                r is Sent && final(channel)@ == old(channel)@.with_item(item)
            } else {
                r == Sending::Wait(item) && final(channel)@ == old(channel)@
            },
            old(channel)@.receivers == 0 ==> r is Closed,
            old(channel)@.senders == 0 ==> r is Closed,
            r is Closed ==> old(channel)@.senders == 0 || old(channel)@.receivers == 0,
    {
        // At most: look, try, lock, try again, look again, fall asleep.
        let mut op: SendOp<T> = SendOp::start(item);
        op.step(channel);
        op.step(channel);
        op.step(channel);
        op.step(channel);
        op.step(channel);
        op.step(channel);
        match op.item {
            None => Sending::Sent,
            Some(item) => if op.at == Stage::SendAsleep {
                Sending::Wait(item)
            } else {
                Sending::Closed
            },
        }
    }
}

impl<T> Receiver<T> {
    /// Another receiver for the same channel.
    pub fn duplicate(&self, channel: &mut Channel<T>) -> (r: Receiver<T>)
        requires
            old(channel).wf(),
            old(channel)@.receivers < usize::MAX,
        ensures
            final(channel).wf(),
            final(channel).waiting == old(channel).waiting,
            final(channel)@ == (ChannelView {
                receivers: old(channel)@.receivers + 1,
                ..old(channel)@
            }),
    {
        channel.receivers = channel.receivers + 1;
        Receiver { target: PhantomData }
    }

    /// Gives this receiver up; those that wait are to be woken.
    pub fn release(self, channel: &mut Channel<T>)
        requires
            old(channel).wf(),
            old(channel)@.receivers > 0,
        ensures
            final(channel).wf(),
            final(channel).waiting == old(channel).waiting,
            final(channel)@ == (ChannelView {
                receivers: old(channel)@.receivers - 1,
                ..old(channel)@
            }),
    {
        channel.receivers = channel.receivers - 1;
    }

    /// Receives the next item from the channel.
    pub fn recv(&self, channel: &mut Channel<T>) -> (r: Receiving<T>)
        requires
            old(channel).wf(),
            !old(channel).waiting,
        ensures
            final(channel).wf(),
            !final(channel).waiting,
            if old(channel)@.items.len() > 0 {
                r == Receiving::Item(old(channel)@.items[0]) && final(channel)@ == old(
                    channel,
                )@.without_first()
            } else if old(channel)@.closed() {
                r is Closed && final(channel)@ == old(channel)@
            } else {
                r is Wait && final(channel)@ == old(channel)@
            },
            old(channel)@.items.len() == 0 && old(channel)@.senders == 0 ==> r is Closed,
            old(channel)@.items.len() == 0 && old(channel)@.receivers == 0 ==> r is Closed,
            r is Closed ==> old(channel)@.senders == 0 || old(channel)@.receivers == 0,
    {
        // At most: try, lock, try again, look, look again, fall asleep.
        let mut op: RecvOp<T> = RecvOp::start();
        op.step(channel);
        op.step(channel);
        op.step(channel);
        op.step(channel);
        op.step(channel);
        op.step(channel);
        match op.item {
            Some(item) => Receiving::Item(item),
            None => if op.at == Stage::RecvAsleep {
                Receiving::Wait
            } else {
                Receiving::Closed
            },
        }
    }
}

/// Items are received in the order in which they were sent: what is received is
/// the oldest item, and a send in between does not change which one that is.
pub proof fn items_come_out_in_order<T>(c: ChannelView<T>, item: T)
    ensures
        c.items.len() > 0 ==> c.with_item(item).items[0] == c.items[0]
            && c.with_item(item).without_first() == c.without_first().with_item(item),
        c.items.len() == 0 ==> c.with_item(item).items[0] == item
            && c.with_item(item).without_first() == c,
{
    if c.items.len() > 0 {
        assert(c.with_item(item).items.drop_first() =~= c.items.drop_first().push(item));
    } else {
        assert(c.with_item(item).items.drop_first() =~= c.items);
    }
}

/// A channel is closed as soon as one side has nobody left, however many there
/// are on the other side, and not before.
pub proof fn channel_is_closed_once_a_side_is_gone<T>(c: ChannelView<T>)
    ensures
        c.senders == 0 ==> c.closed(),
        c.receivers == 0 ==> c.closed(),
        c.closed() ==> c.senders == 0 || c.receivers == 0,
{
}

/// Neither sending nor receiving closes a channel, opens it again, or changes
/// how many items may wait; a send leaves all items that wait and adds its own,
/// a receive takes one away and leaves the others.
pub proof fn items_come_and_go_alone<T>(c: ChannelView<T>, item: T)
    ensures
        c.with_item(item).senders == c.senders,
        c.with_item(item).receivers == c.receivers,
        c.with_item(item).capacity == c.capacity,
        c.with_item(item).items.to_multiset() == c.items.to_multiset().insert(item),
        c.with_item(item).items.len() == c.items.len() + 1,
        c.items.len() > 0 ==> {
            &&& c.without_first().senders == c.senders
            &&& c.without_first().receivers == c.receivers
            &&& c.without_first().capacity == c.capacity
            &&& c.without_first().items.to_multiset().insert(c.items[0]) == c.items.to_multiset()
            &&& c.without_first().items.len() == c.items.len() - 1
        },
{
    broadcast use group_to_multiset_ensures;

    if c.items.len() > 0 {
        let rest = c.items.drop_first();
        assert(c.items.remove(0) =~= rest);
        assert(rest.to_multiset().insert(c.items[0]) =~= c.items.to_multiset());
    }
}

/// The channel after `n` items have been received.
pub open spec fn drained<T>(c: ChannelView<T>, n: nat) -> ChannelView<T>
    decreases n,
{
    if n == 0 {
        c
    } else {
        drained(c, (n - 1) as nat).without_first()
    }
}

/// A channel whose senders are gone is drained before it reports that it is
/// closed: the items that wait come out one by one, in order, and then none is
/// left.
pub proof fn closed_channel_is_drained<T>(c: ChannelView<T>, n: nat)
    requires
        n <= c.items.len(),
    ensures
        drained(c, n).items == c.items.skip(n as int),
        drained(c, n).closed() == c.closed(),
        n < c.items.len() ==> drained(c, n).items[0] == c.items[n as int],
        n == c.items.len() ==> drained(c, n).items.len() == 0,
    decreases n,
{
    if n == 0 {
        assert(c.items.skip(0) =~= c.items);
    } else {
        closed_channel_is_drained(c, (n - 1) as nat);
        assert(drained(c, n).items =~= c.items.skip(n as int));
    }
}

} // verus!

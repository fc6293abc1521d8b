use milkyapps_core::sync::channel::{
    bounded, Channel, Receiver, Receiving, RecvOp, SendOp, Sender, Sending, Stage,
};
use std::cell::Cell;
use std::rc::Rc;

/// Chooses who acts next.
struct Dice(u64);

impl Dice {
    fn roll(&mut self, n: usize) -> usize {
        self.0 ^= self.0 << 13;
        self.0 ^= self.0 >> 7;
        self.0 ^= self.0 << 17;
        (self.0 % n as u64) as usize
    }
}

/// An item that counts itself.
#[derive(Debug)]
struct Counter {
    live: Rc<Cell<usize>>,
}

impl Counter {
    fn new(live: &Rc<Cell<usize>>) -> Self {
        live.set(live.get() + 1);
        Self { live: Rc::clone(live) }
    }
}

impl Drop for Counter {
    fn drop(&mut self) {
        self.live.set(self.live.get() - 1);
    }
}

fn send<T>(tx: &Sender<T>, ch: &mut Channel<T>, item: T) -> Result<(), ()> {
    match tx.send(ch, item) {
        Sending::Sent => Ok(()),
        Sending::Closed => Err(()),
        Sending::Wait(_) => panic!("nobody will make room"),
    }
}

fn recv<T>(rx: &Receiver<T>, ch: &mut Channel<T>) -> Option<T> {
    match rx.recv(ch) {
        Receiving::Item(item) => Some(item),
        Receiving::Closed => None,
        Receiving::Wait => panic!("nobody will send"),
    }
}

#[test]
fn send_then_recv_single() {
    let (mut ch, tx, rx) = bounded::<i32>(4);
    send(&tx, &mut ch, 7).unwrap();
    assert_eq!(recv(&rx, &mut ch), Some(7));
}

#[test]
fn fifo_order() {
    let (mut ch, tx, rx) = bounded::<usize>(4);
    for i in 0..4 {
        send(&tx, &mut ch, i).unwrap();
    }
    for i in 0..4 {
        assert_eq!(recv(&rx, &mut ch), Some(i));
    }
}

#[test]
fn alternating_send_recv() {
    let (mut ch, tx, rx) = bounded::<usize>(4);
    for i in 0..50 {
        send(&tx, &mut ch, i).unwrap();
        assert_eq!(recv(&rx, &mut ch), Some(i));
    }
}

#[test]
fn fill_to_capacity_then_drain() {
    for cap in [2usize, 4, 8, 16] {
        let (mut ch, tx, rx) = bounded::<usize>(cap);
        for i in 0..cap {
            send(&tx, &mut ch, i).unwrap();
        }
        for i in 0..cap {
            assert_eq!(recv(&rx, &mut ch), Some(i));
        }
    }
}

#[test]
fn empty_recv_blocks_until_send() {
    let (mut ch, tx, rx) = bounded::<i32>(4);
    assert!(matches!(rx.recv(&mut ch), Receiving::Wait));
    send(&tx, &mut ch, 42).unwrap();
    assert_eq!(recv(&rx, &mut ch), Some(42));
}

#[test]
fn full_send_blocks_until_recv() {
    let (mut ch, tx, rx) = bounded::<i32>(2);
    send(&tx, &mut ch, 1).unwrap();
    send(&tx, &mut ch, 2).unwrap();
    let item = match tx.send(&mut ch, 3) {
        Sending::Wait(item) => item,
        _ => panic!("the channel is full"),
    };
    assert_eq!(recv(&rx, &mut ch), Some(1));
    send(&tx, &mut ch, item).unwrap();
    assert_eq!(recv(&rx, &mut ch), Some(2));
    assert_eq!(recv(&rx, &mut ch), Some(3));
}

#[test]
fn wrap_around_preserves_order() {
    let (mut ch, tx, rx) = bounded::<usize>(4);
    for round in 0..10 {
        let base = round * 4;
        for i in 0..4 {
            send(&tx, &mut ch, base + i).unwrap();
        }
        for i in 0..4 {
            assert_eq!(recv(&rx, &mut ch), Some(base + i));
        }
    }
}

#[test]
fn capacity_non_power_of_two_fifo() {
    let (mut ch, tx, rx) = bounded::<usize>(3);
    let mut received = Vec::new();
    for i in 0..3 {
        send(&tx, &mut ch, i).unwrap();
    }
    assert!(matches!(tx.send(&mut ch, 3), Sending::Wait(3)));
    for _ in 0..3 {
        received.push(recv(&rx, &mut ch).unwrap());
    }
    assert_eq!(
        received,
        vec![0, 1, 2],
        "non-power-of-two capacity is broken: recv hangs or returns wrong values"
    );
}

#[test]
fn recv_returns_none_when_all_senders_dropped() {
    let (mut ch, tx, rx) = bounded::<i32>(4);
    tx.release(&mut ch);
    let result = recv(&rx, &mut ch);
    assert_eq!(result, None);
}

#[test]
fn channel_drop_drains_resident_items() {
    let live = Rc::new(Cell::new(0));
    {
        let (mut ch, tx, _rx) = bounded::<Counter>(4);
        send(&tx, &mut ch, Counter::new(&live)).unwrap();
        send(&tx, &mut ch, Counter::new(&live)).unwrap();
        assert_eq!(live.get(), 2);
    }
    assert_eq!(live.get(), 0, "buffered items leaked");
}

#[test]
fn popped_item_dropped_once() {
    let live = Rc::new(Cell::new(0));
    let (mut ch, tx, rx) = bounded::<Counter>(4);
    send(&tx, &mut ch, Counter::new(&live)).unwrap();
    let item = recv(&rx, &mut ch).unwrap();
    assert_eq!(live.get(), 1);
    drop(item);
    assert_eq!(live.get(), 0);
}

#[test]
fn spsc_stress() {
    const N: usize = 200;
    for seed in 1..20 {
        let mut dice = Dice(seed);
        let (mut ch, tx, rx) = bounded::<usize>(8);
        let mut sent = 0;
        let mut expected = 0;
        while expected < N {
            if dice.roll(2) == 0 {
                if sent < N && matches!(tx.send(&mut ch, sent), Sending::Sent) {
                    sent += 1;
                }
            } else if let Receiving::Item(v) = rx.recv(&mut ch) {
                assert_eq!(v, expected, "FIFO order violated");
                expected += 1;
            }
        }
        assert_eq!(sent, N);
    }
}

#[test]
fn shared_sender_mpmc() {
    const PRODUCERS: usize = 3;
    const PER_PRODUCER: usize = 100;
    const TOTAL: usize = PRODUCERS * PER_PRODUCER;
    let expected_sum: usize = (0..TOTAL).sum();

    let mut dice = Dice(11);
    let (mut ch, tx, rx) = bounded::<usize>(16);
    let senders: Vec<Sender<usize>> = (0..PRODUCERS).map(|_| tx.duplicate(&mut ch)).collect();
    let mut next = [0usize; PRODUCERS];
    let mut sum = 0;
    let mut count = 0;
    while count < TOTAL {
        let t = dice.roll(PRODUCERS + 1);
        if t < PRODUCERS {
            if next[t] < PER_PRODUCER
                && matches!(
                    senders[t].send(&mut ch, t * PER_PRODUCER + next[t]),
                    Sending::Sent
                )
            {
                next[t] += 1;
            }
        } else if let Receiving::Item(v) = rx.recv(&mut ch) {
            sum += v;
            count += 1;
        }
    }
    assert_eq!(count, TOTAL, "lost or duplicated items");
    assert_eq!(sum, expected_sum, "item corruption");
    assert!(matches!(rx.recv(&mut ch), Receiving::Wait));
}

#[test]
fn shared_receiver_mpmc() {
    const CONSUMERS: usize = 3;
    const TOTAL: usize = 300;
    let expected_sum: usize = (0..TOTAL).sum();

    let mut dice = Dice(13);
    let (mut ch, tx, rx) = bounded::<usize>(16);
    let receivers: Vec<Receiver<usize>> = (0..CONSUMERS).map(|_| rx.duplicate(&mut ch)).collect();
    let mut tx = Some(tx);
    let mut next = 0;
    let mut actual_sum = 0;
    let mut done = [false; CONSUMERS];
    while done.iter().any(|d| !*d) {
        let t = dice.roll(CONSUMERS + 1);
        if t == CONSUMERS {
            if next == TOTAL {
                if let Some(tx) = tx.take() {
                    tx.release(&mut ch);
                }
            } else if let Some(tx) = &tx {
                if matches!(tx.send(&mut ch, next), Sending::Sent) {
                    next += 1;
                }
            }
        } else {
            match receivers[t].recv(&mut ch) {
                Receiving::Item(v) => actual_sum += v,
                Receiving::Closed => done[t] = true,
                Receiving::Wait => {}
            }
        }
    }
    assert_eq!(actual_sum, expected_sum, "item corruption");
}

#[test]
fn sender_and_receiver_are_send_and_sync_when_t_is_send() {
    fn assert_send<T: Send>() {}
    fn assert_sync<T: Sync>() {}
    assert_send::<Sender<i32>>();
    assert_send::<Receiver<i32>>();
    assert_sync::<Sender<i32>>();
    assert_sync::<Receiver<i32>>();
}

#[test]
fn send_after_receiver_dropped() {
    let live = Rc::new(Cell::new(0));
    let (mut ch, tx, rx) = bounded::<Counter>(4);
    send(&tx, &mut ch, Counter::new(&live)).unwrap();
    rx.release(&mut ch);
    assert_eq!(live.get(), 1, "item must still be alive after receiver dropped");
    tx.release(&mut ch);
    drop(ch);
    assert_eq!(live.get(), 0, "item must be dropped when channel is dropped");
}

#[test]
fn blocked_recv_unblocks_when_last_sender_dropped() {
    let (mut ch, tx, rx) = bounded::<i32>(4);
    assert!(matches!(rx.recv(&mut ch), Receiving::Wait));
    tx.release(&mut ch);
    assert!(matches!(rx.recv(&mut ch), Receiving::Closed));
}

#[test]
fn blocked_send_unblocks_when_receiver_dropped() {
    let (mut ch, tx, rx) = bounded::<i32>(1);
    send(&tx, &mut ch, 1).unwrap();
    assert!(matches!(tx.send(&mut ch, 2), Sending::Wait(2)));
    rx.release(&mut ch);
    assert!(matches!(tx.send(&mut ch, 2), Sending::Closed));
}

#[test]
fn send_returns_err_after_receiver_dropped() {
    let (mut ch, tx, rx) = bounded::<i32>(4);
    rx.release(&mut ch);
    assert_eq!(send(&tx, &mut ch, 1), Err(()));
}

#[test]
fn multiple_cloned_senders_disconnect() {
    let (mut ch, tx, rx) = bounded::<i32>(4);
    let tx2 = tx.duplicate(&mut ch);
    tx.release(&mut ch);
    send(&tx2, &mut ch, 1).unwrap();
    assert_eq!(recv(&rx, &mut ch), Some(1));
    tx2.release(&mut ch);
    assert_eq!(recv(&rx, &mut ch), None);
}

#[test]
fn receiver_clone_keeps_channel_open() {
    let (mut ch, tx, rx) = bounded::<i32>(4);
    let rx2 = rx.duplicate(&mut ch);
    rx.release(&mut ch);
    send(&tx, &mut ch, 1).unwrap();
    assert_eq!(recv(&rx2, &mut ch), Some(1));
}

#[test]
fn heavy_contention_preserves_all_items() {
    const PRODUCERS: usize = 8;
    const CONSUMERS: usize = 8;
    const PER_PRODUCER: usize = 100;
    const TOTAL: usize = PRODUCERS * PER_PRODUCER;
    let expected_sum: usize = (0..TOTAL).sum();

    for seed in 1..10 {
        let mut dice = Dice(seed);
        let (mut ch, tx, rx) = bounded::<usize>(16);
        let mut senders: Vec<Option<Sender<usize>>> =
            (0..PRODUCERS).map(|_| Some(tx.duplicate(&mut ch))).collect();
        tx.release(&mut ch);
        let mut receivers: Vec<Option<Receiver<usize>>> =
            (0..CONSUMERS).map(|_| Some(rx.duplicate(&mut ch))).collect();
        rx.release(&mut ch);
        let mut next = [0usize; PRODUCERS];
        let mut count = 0;
        let mut sum = 0;
        while receivers.iter().any(|r| r.is_some()) {
            let t = dice.roll(PRODUCERS + CONSUMERS);
            if t < PRODUCERS {
                if next[t] == PER_PRODUCER {
                    if let Some(tx) = senders[t].take() {
                        tx.release(&mut ch);
                    }
                } else if let Some(tx) = &senders[t] {
                    if matches!(
                        tx.send(&mut ch, t * PER_PRODUCER + next[t]),
                        Sending::Sent
                    ) {
                        next[t] += 1;
                    }
                }
            } else {
                let slot = &mut receivers[t - PRODUCERS];
                let outcome = match slot {
                    Some(rx) => rx.recv(&mut ch),
                    None => continue,
                };
                let over = match outcome {
                    Receiving::Item(v) => {
                        count += 1;
                        sum += v;
                        count == TOTAL
                    }
                    Receiving::Closed => true,
                    Receiving::Wait => false,
                };
                if over {
                    if let Some(rx) = slot.take() {
                        rx.release(&mut ch);
                    }
                }
            }
        }
        assert_eq!(count, TOTAL, "lost or duplicated items");
        assert_eq!(sum, expected_sum, "item corruption");
    }
}

#[test]
fn recv_drains_buffered_items_then_returns_none_on_close() {
    let (mut ch, tx, rx) = bounded::<usize>(4);
    for i in 0..4 {
        send(&tx, &mut ch, i).unwrap();
    }
    tx.release(&mut ch);
    assert!(ch.is_closed());
    for i in 0..4 {
        assert_eq!(recv(&rx, &mut ch), Some(i), "buffered item lost on close");
    }
    assert_eq!(
        recv(&rx, &mut ch),
        None,
        "recv must return None after draining"
    );
}

/// Senders and receivers, step by step, that sleep where they must and start
/// again when they are woken: nobody is left asleep, and nothing is lost.
#[test]
fn nobody_is_left_asleep() {
    const EACH: usize = 20;
    for seed in 1..200 {
        let mut dice = Dice(seed);
        let (mut ch, _tx, _rx) = bounded::<usize>(2);
        let mut sends: Vec<SendOp<usize>> = (0..2).map(|t| SendOp::start(t * EACH)).collect();
        let mut sent = [0usize; 2];
        let mut recvs: Vec<RecvOp<usize>> = vec![RecvOp::start(), RecvOp::start()];
        let mut received = vec![];
        let mut idle = 0;
        while received.len() < 2 * EACH {
            idle += 1;
            assert!(idle < 10_000, "everyone sleeps");
            let who = dice.roll(4);
            let rings = if who < 2 {
                if sent[who] == EACH {
                    continue;
                }
                let before = sends[who].at;
                sends[who].step(&mut ch);
                if sends[who].at == Stage::Done {
                    sent[who] += 1;
                    sends[who] = SendOp::start(who * EACH + sent[who]);
                }
                before == Stage::Ring
            } else {
                let op = &mut recvs[who - 2];
                let before = op.at;
                op.step(&mut ch);
                if op.at == Stage::Done {
                    received.extend(op.item.take());
                    *op = RecvOp::start();
                }
                before == Stage::Ring
            };
            if rings {
                idle = 0;
                for op in &mut sends {
                    if op.at == Stage::SendAsleep {
                        op.at = Stage::SendCheck;
                    }
                }
                for op in &mut recvs {
                    if op.at == Stage::RecvAsleep {
                        op.at = Stage::RecvFast;
                    }
                }
            }
        }
        received.sort_unstable();
        assert_eq!(received, (0..2 * EACH).collect::<Vec<usize>>());
    }
}

use milkyapps_core::collections::ringbuffer::{PopError, PopOp, PushError, PushOp, RingBuffer};
use std::cell::Cell;
use std::rc::Rc;

/// Chooses who acts next.
struct Dice(u64);

impl Dice {
    fn roll(&mut self, n: usize) -> usize {
        self.0 ^= self.0 << 13;
        self.0 ^= self.0 >> 7;
        self.0 ^= self.0 << 17;
        (self.0 % n as u64) as usize
    }
}

#[test]
fn construction_and_dbg_succeed() {
    let rb = RingBuffer::<u64>::with_capacity(2);
    let _ = format!("{rb:?}");
}

#[test]
fn single_push_then_pop_returns_the_pushed_value() {
    let mut rb = RingBuffer::with_capacity(2);

    rb.push(0u64).unwrap();
    assert_eq!(rb.pop().unwrap().unwrap(), 0);

    rb.push(1u64).unwrap();
    assert_eq!(rb.pop().unwrap().unwrap(), 1);
}

#[test]
fn fifo_order_within_one_full_cycle() {
    let mut rb = RingBuffer::<u64>::with_capacity(8);
    for i in 0..8u64 {
        rb.push(i).unwrap();
    }
    for i in 0..8u64 {
        assert_eq!(rb.pop().unwrap(), Some(i));
    }
    assert_eq!(rb.pop().unwrap(), None);
}

#[test]
fn fifo_order_survives_capacity_wraps() {
    let mut rb = RingBuffer::<u64>::with_capacity(4);
    for round in 0..3u64 {
        let base = round * 10;
        for i in 0..4u64 {
            rb.push(base + i).unwrap();
        }
        for i in 0..4u64 {
            assert_eq!(rb.pop().unwrap(), Some(base + i));
        }
    }
    assert_eq!(rb.pop().unwrap(), None);
}

#[test]
fn pop_from_empty_buffer_returns_none() {
    let mut rb = RingBuffer::<u64>::with_capacity(4);
    assert_eq!(rb.pop().unwrap(), None);
}

/// One consumer per slot, their accesses interleaved at random.
#[test]
fn concurrent_pops_each_claim_a_distinct_slot() {
    const SLOTS: usize = 4;
    const ITERS: usize = 2000;
    let mut dice = Dice(0x9e37_79b9);
    let mut successes = 0usize;
    for _ in 0..ITERS {
        let mut rb = RingBuffer::<usize>::with_capacity(SLOTS);
        for v in 0..SLOTS {
            rb.push(v).unwrap();
        }

        let mut ops: Vec<PopOp<usize>> = (0..SLOTS).map(|_| PopOp::new()).collect();
        let mut got = vec![];
        while !ops.is_empty() {
            let who = dice.roll(ops.len());
            if let Some(result) = ops[who].step(&mut rb) {
                if let Some(v) = result.unwrap() {
                    successes += 1;
                    got.push(v);
                }
                ops.swap_remove(who);
            }
        }
        got.sort_unstable();
        got.dedup();
        assert_eq!(got.len(), SLOTS);
    }
    assert_eq!(successes, ITERS * SLOTS);
}

/// Several producers and consumers, their accesses interleaved at random.
#[test]
fn mpmc_preserves_exact_item_set() {
    const PRODUCERS: usize = 2;
    const PER_PRODUCER: usize = 500;
    const CONSUMERS: usize = 2;
    const TOTAL: usize = PRODUCERS * PER_PRODUCER;

    let mut dice = Dice(0xdead_beef);
    let mut rb = RingBuffer::<usize>::with_capacity(16);
    let mut next = [0usize; PRODUCERS];
    let mut pushes: Vec<Option<PushOp<usize>>> = (0..PRODUCERS).map(|_| None).collect();
    let mut pops: Vec<PopOp<usize>> = (0..CONSUMERS).map(|_| PopOp::new()).collect();
    let mut received = Vec::with_capacity(TOTAL);

    while received.len() < TOTAL {
        let who = dice.roll(PRODUCERS + CONSUMERS);
        if who < PRODUCERS {
            if pushes[who].is_none() && next[who] < PER_PRODUCER {
                pushes[who] = Some(PushOp::new(who * PER_PRODUCER + next[who]));
                next[who] += 1;
            }
            if let Some(op) = pushes[who].as_mut() {
                match op.step(&mut rb) {
                    None => {}
                    Some(Ok(())) => pushes[who] = None,
                    Some(Err(PushError::Full(item) | PushError::HighContention(item))) => {
                        pushes[who] = Some(PushOp::new(item));
                    }
                }
            }
        } else if let Some(result) = pops[who - PRODUCERS].step(&mut rb) {
            if let Ok(Some(v)) = result {
                received.push(v);
            }
            pops[who - PRODUCERS] = PopOp::new();
        }
    }
    assert_eq!(received.len(), TOTAL, "an item was lost");
    let mut sorted = received.clone();
    sorted.sort_unstable();
    let expected: Vec<usize> = (0..TOTAL).collect();
    assert_eq!(sorted, expected, "an item was duplicated or corrupted");
}

#[derive(Debug)]
struct Counter {
    live: Rc<Cell<usize>>,
}

impl Counter {
    fn new(live: &Rc<Cell<usize>>) -> Self {
        live.set(live.get() + 1);
        Self {
            live: Rc::clone(live),
        }
    }
}

impl Drop for Counter {
    fn drop(&mut self) {
        self.live.set(self.live.get() - 1);
    }
}

#[test]
fn ringbuffer_drop_drains_resident_items() {
    let live = Rc::new(Cell::new(0));
    {
        let mut rb = RingBuffer::<Counter>::with_capacity(8);
        for _ in 0..4 {
            rb.push(Counter::new(&live)).unwrap();
        }
        assert_eq!(live.get(), 4);
    }
    assert_eq!(live.get(), 0, "buffered items leaked");
}

#[test]
fn zero_capacity_request_is_safe() {
    let mut rb = RingBuffer::<u64>::with_capacity(0);
    assert_eq!(rb.pop().unwrap(), None);
}

#[test]
fn zero_capacity_is_rounded_up_to_two() {
    let mut rb = RingBuffer::<u64>::with_capacity(0);
    assert!(rb.push(1).is_ok());
    assert!(rb.push(2).is_ok());
    assert!(matches!(rb.push(3), Err(PushError::Full(3))));
    let mut rb = RingBuffer::<u64>::with_capacity(1);
    assert!(rb.push(1).is_ok());
    assert!(matches!(rb.push(2), Err(PushError::Full(2))));
}

#[test]
fn push_into_full_buffer_returns_the_item() {
    let mut rb = RingBuffer::<u64>::with_capacity(2);
    rb.push(0).unwrap();
    rb.push(1).unwrap();
    assert!(matches!(rb.push(2), Err(PushError::Full(2))));
}

/// One producer and one consumer, their accesses interleaved at random.
#[test]
fn single_producer_single_consumer_stress() {
    const ROUNDS: usize = 100;
    const PER_ROUND: usize = 8;
    let mut dice = Dice(0x1234_5678);
    let mut rb = RingBuffer::<u64>::with_capacity(PER_ROUND);
    let mut received: Vec<u64> = Vec::with_capacity(ROUNDS * PER_ROUND);
    let expected: Vec<u64> = (0..ROUNDS as u64)
        .flat_map(|round| (0..PER_ROUND as u64).map(move |i| round * 100 + i))
        .collect();

    let mut sent = 0;
    let mut push: Option<PushOp<u64>> = None;
    let mut pop: PopOp<u64> = PopOp::new();
    while received.len() < ROUNDS * PER_ROUND {
        if dice.roll(2) == 0 {
            if push.is_none() && sent < expected.len() {
                push = Some(PushOp::new(expected[sent]));
                sent += 1;
            }
            if let Some(op) = push.as_mut() {
                match op.step(&mut rb) {
                    None => {}
                    Some(Ok(())) => push = None,
                    Some(Err(PushError::Full(item) | PushError::HighContention(item))) => {
                        push = Some(PushOp::new(item));
                    }
                }
            }
        } else if let Some(result) = pop.step(&mut rb) {
            if let Some(v) = result.unwrap() {
                received.push(v);
            }
            pop = PopOp::new();
        }
    }

    assert_eq!(received.len(), ROUNDS * PER_ROUND);
    assert_eq!(received, expected);
}

#[test]
fn capacity_one_allows_overwrite() {
    let mut rb = RingBuffer::<u64>::with_capacity(1);
    rb.push(1).unwrap();
    let push_result = rb.push(2);
    assert!(
        push_result.is_err(),
        "push into a full capacity-1 buffer must fail instead of overwriting"
    );
}

#[test]
fn glm_dbg_reads_uninit_slot() {
    let mut rb = RingBuffer::<u64>::with_capacity(4);
    rb.push(7).unwrap();
    let _ = format!("{rb:?}");
}

#[test]
fn slots_are_the_next_power_of_two() {
    for (capacity, slots) in [(0usize, 2usize), (1, 2), (2, 2), (3, 4), (4, 4), (5, 8), (1000, 1024)] {
        let rb = RingBuffer::<u8>::with_capacity(capacity);
        assert_eq!(rb.slots.len(), slots);
        assert_eq!(rb.cap, if capacity == 0 { 2 } else { capacity });
        assert_eq!(rb.len(), 0);
        assert!(rb.is_empty());
    }
}

#[test]
fn a_push_that_always_loses_reports_contention() {
    let mut rb = RingBuffer::<u64>::with_capacity(64);
    let mut slow = PushOp::new(99u64);
    let mut outcome = None;
    for i in 0..10u64 {
        // Read length, cursor and sequence, then be overtaken before claiming.
        assert!(slow.step(&mut rb).is_none());
        assert!(slow.step(&mut rb).is_none());
        assert!(slow.step(&mut rb).is_none());
        rb.push(i).unwrap();
        outcome = slow.step(&mut rb);
        assert_eq!(outcome.is_some(), i == 9);
    }
    assert!(matches!(outcome, Some(Err(PushError::HighContention(99)))));
    assert_eq!(rb.len(), 10);
}

#[test]
fn a_pop_that_always_loses_reports_contention() {
    let mut rb = RingBuffer::<u64>::with_capacity(64);
    for i in 0..20u64 {
        rb.push(i).unwrap();
    }
    let mut slow = PopOp::new();
    let mut outcome = None;
    for i in 0..10u64 {
        assert!(slow.step(&mut rb).is_none());
        assert!(slow.step(&mut rb).is_none());
        assert_eq!(rb.pop().unwrap(), Some(i));
        outcome = slow.step(&mut rb);
    }
    assert!(matches!(outcome, Some(Err(PopError::HighContention))));
    assert_eq!(rb.len(), 10);
}

#[test]
fn a_pop_waits_for_the_push_ahead_of_it() {
    let mut rb = RingBuffer::<u64>::with_capacity(4);
    let mut slow = PushOp::new(1u64);
    for _ in 0..4 {
        // Length, cursor, sequence, claim: the item is not written yet.
        assert!(slow.step(&mut rb).is_none());
    }
    rb.push(2).unwrap();
    assert_eq!(rb.pop().unwrap(), None);
    while slow.step(&mut rb).is_none() {}
    assert_eq!(rb.pop().unwrap(), Some(1));
    assert_eq!(rb.pop().unwrap(), Some(2));
    assert_eq!(rb.pop().unwrap(), None);
}

/// An empty buffer whose cursors stand at `at`.
fn buffer_at(at: usize, capacity: usize) -> RingBuffer<u64> {
    let mut rb = RingBuffer::<u64>::with_capacity(capacity);
    let n = rb.slots.len();
    rb.reader = at;
    rb.writer = at;
    for k in 0..n {
        let ticket = at.wrapping_add(k);
        rb.slots[ticket % n].sequence = ticket;
    }
    rb
}

#[test]
fn cursors_go_round_the_range_of_a_word() {
    for at in [usize::MAX / 2 - 2, usize::MAX - 2] {
        let mut rb = buffer_at(at, 3);
        for i in 0..10u64 {
            assert!(rb.push(3 * i).is_ok());
            assert!(rb.push(3 * i + 1).is_ok());
            assert!(rb.push(3 * i + 2).is_ok());
            assert!(matches!(rb.push(99), Err(PushError::Full(99))));
            assert_eq!(rb.pop().unwrap(), Some(3 * i));
            assert_eq!(rb.pop().unwrap(), Some(3 * i + 1));
            assert_eq!(rb.pop().unwrap(), Some(3 * i + 2));
            assert_eq!(rb.pop().unwrap(), None);
        }
        assert_eq!(rb.reader, at.wrapping_add(30));
    }
}

#[test]
fn interleaved_steps_keep_their_items_where_the_cursors_overflow() {
    for seed in 1..200u64 {
        let mut dice = Dice(seed.wrapping_mul(0x9e37_79b9_7f4a_7c15) | 1);
        let mut rb = buffer_at(usize::MAX - 5, 4);
        let mut pushes = [PushOp::new(0u64), PushOp::new(1000)];
        let mut pops = [PopOp::new(), PopOp::new()];
        let mut next = [0u64, 1000];
        let mut got: Vec<u64> = vec![];
        while got.len() < 20 {
            let who = dice.roll(2);
            if dice.roll(2) == 0 {
                match pushes[who].step(&mut rb) {
                    None => {}
                    Some(done) => {
                        if done.is_ok() {
                            next[who] += 1;
                        }
                        pushes[who] = PushOp::new(next[who]);
                    }
                }
            } else if let Some(done) = pops[who].step(&mut rb) {
                got.extend(done.ok().flatten());
                pops[who] = PopOp::new();
            }
        }
        let total = got.len();
        got.sort_unstable();
        got.dedup();
        assert_eq!(got.len(), total, "an item came out twice");
        // The push that is not counted yet may already have been served.
        assert!(got.iter().all(|i| *i <= next[(*i / 1000) as usize]));
    }
}

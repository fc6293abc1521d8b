use milkyapps_core::allocators::calls::{GiveAt, GiveOp, PoolWords, TakeAt, TakeOp};
use milkyapps_core::allocators::freelist::{Freelist, Reservation};
use milkyapps_core::allocators::layout::Layout;
use milkyapps_core::allocators::stack::{Node, PopStep};
use milkyapps_core::ptr::{tagged_to_ptr_tag, TaggedPtr};

/// Chooses who acts next.
struct Dice(u64);

impl Dice {
    fn roll(&mut self, n: usize) -> usize {
        self.0 ^= self.0 << 13;
        self.0 ^= self.0 >> 7;
        self.0 ^= self.0 << 17;
        (self.0 % n as u64) as usize
    }
}

fn word(node: u64, tag: u16) -> u64 {
    TaggedPtr::<Node>::new(node, tag).inner
}

/// The word under which a buffer is returned: its tag is one more.
fn next_word(w: u64) -> u64 {
    let (node, tag) = tagged_to_ptr_tag(w);
    word(node, tag.wrapping_add(1))
}

/// Runs a request alone until it waits for memory, puts something back, or is
/// through.
fn run_take(op: &mut TakeOp, pool: &mut PoolWords) {
    loop {
        match op.at {
            TakeAt::Grow | TakeAt::Ready { .. } | TakeAt::Refused => return,
            TakeAt::Recycle if !op.found.is_empty() => return,
            _ => op.step(pool),
        }
    }
}

/// Runs a return alone until it has memory to give back or is through.
fn run_give(op: &mut GiveOp, pool: &mut PoolWords) {
    loop {
        match op.at {
            GiveAt::Done | GiveAt::Refused => return,
            GiveAt::Free if !op.found.is_empty() => return,
            _ => op.step(pool),
        }
    }
}

fn lend_new(pool: &mut PoolWords, node: u64) -> u64 {
    let mut op = TakeOp::new();
    run_take(&mut op, pool);
    assert_eq!(op.at, TakeAt::Grow);
    op.made(node);
    run_take(&mut op, pool);
    assert_eq!(op.at, TakeAt::Ready { word: word(node, 0) });
    word(node, 0)
}

fn give(pool: &mut PoolWords, w: u64) {
    let mut op = GiveOp::new(w);
    run_give(&mut op, pool);
    assert_eq!(op.at, GiveAt::Done);
}

#[test]
fn request_and_return_step_by_step() {
    let mut pool = PoolWords::new(2, 16, 4, 4, 4);
    let mut op = TakeOp::new();
    assert_eq!(op.at, TakeAt::Acquire);
    op.step(&mut pool);
    assert_eq!(op.at, TakeAt::Pop);
    assert_eq!(pool.hp.is_available, vec![false, true]);
    op.step(&mut pool);
    assert_eq!(op.at, TakeAt::Room);
    op.step(&mut pool);
    assert_eq!(op.at, TakeAt::LeaveToGrow);
    op.step(&mut pool);
    assert_eq!(op.at, TakeAt::Grow);
    assert_eq!(pool.hp.is_available, vec![true, true]);
    op.step(&mut pool);
    assert_eq!(op.at, TakeAt::Grow);
    op.made(0x1000);
    assert_eq!(pool.allocated, 0);
    op.step(&mut pool);
    assert_eq!(op.at, TakeAt::Ready { word: word(0x1000, 0) });
    assert_eq!(pool.allocated, 1);

    let mut op = GiveOp::new(word(0x1000, 1));
    let mut seen = vec![];
    while op.at != GiveAt::Done {
        seen.push(op.at);
        op.step(&mut pool);
    }
    assert_eq!(
        seen,
        vec![
            GiveAt::Acquire,
            GiveAt::Full,
            GiveAt::Push,
            GiveAt::Publish,
            GiveAt::Push,
            GiveAt::Push,
            GiveAt::Push,
            GiveAt::Count,
            GiveAt::Clear,
            GiveAt::Leave,
        ]
    );
    assert_eq!(pool.in_list, 1);

    let mut op = TakeOp::new();
    let mut seen = vec![];
    while !matches!(op.at, TakeAt::Ready { .. }) {
        seen.push(op.at);
        if op.at == TakeAt::Count || op.at == TakeAt::Clear {
            assert_eq!(pool.hp.locals[0].slots[0], 0x1000);
        }
        op.step(&mut pool);
    }
    assert_eq!(
        seen,
        vec![
            TakeAt::Acquire,
            TakeAt::Pop,
            TakeAt::Publish,
            TakeAt::Pop,
            TakeAt::Pop,
            TakeAt::Pop,
            TakeAt::Count,
            TakeAt::Clear,
            TakeAt::Leave,
        ]
    );
    assert_eq!(op.at, TakeAt::Ready { word: word(0x1000, 1) });
    assert_eq!((pool.allocated, pool.in_list, pool.retired), (1, 0, 0));
}

#[test]
fn calls_without_a_handle_are_refused() {
    let mut pool = PoolWords::new(1, 1, 4, 4, 4);
    let w = lend_new(&mut pool, 0x1000);
    let mut first = TakeOp::new();
    first.step(&mut pool);
    let mut second = TakeOp::new();
    second.step(&mut pool);
    assert_eq!((second.at, second.local), (TakeAt::Acquire, 1));
    second.step(&mut pool);
    assert_eq!(second.at, TakeAt::Refused);
    let mut back = GiveOp::new(next_word(w));
    back.step(&mut pool);
    assert_eq!((back.at, back.local), (GiveAt::Acquire, 1));
    back.step(&mut pool);
    assert_eq!(back.at, GiveAt::Refused);
    back.step(&mut pool);
    assert_eq!(back.at, GiveAt::Refused);
    run_take(&mut first, &mut pool);
    assert_eq!(first.at, TakeAt::Grow);
    give(&mut pool, next_word(w));
    assert_eq!(pool.in_list, 1);
}

#[test]
fn full_list_retires_and_releases() {
    let mut pool = PoolWords::new(4, 16, 8, 1, 1);
    let ws: Vec<u64> = (1..=4).map(|i| lend_new(&mut pool, 0x1000 * i)).collect();
    give(&mut pool, next_word(ws[3]));
    assert_eq!((pool.in_list, pool.retired), (1, 0));
    give(&mut pool, next_word(ws[2]));
    assert_eq!((pool.in_list, pool.retired), (1, 1));
    // One more than may wait: both are released, the lower address first.
    let mut op = GiveOp::new(next_word(ws[0]));
    run_give(&mut op, &mut pool);
    assert_eq!(op.at, GiveAt::Free);
    assert_eq!(op.found, vec![0x1000, 0x3000]);
    assert_eq!((pool.allocated, pool.retired), (2, 0));
    assert_eq!(op.free(&mut pool), Some(0x1000));
    assert_eq!(op.free(&mut pool), Some(0x3000));
    assert_eq!(op.free(&mut pool), None);
    run_give(&mut op, &mut pool);
    assert_eq!(op.at, GiveAt::Done);
    assert!(!pool.stack.links.contains_key(&0x3000));
    assert!(pool.stack.links.contains_key(&0x4000));
}

#[test]
fn node_that_a_request_publishes_is_not_released() {
    let mut pool = PoolWords::new(4, 16, 8, 1, 0);
    let a = lend_new(&mut pool, 0x1000);
    let b = lend_new(&mut pool, 0x2000);
    give(&mut pool, next_word(a));

    // A slow request has seen the node, and reads its link only later.
    let mut slow = TakeOp::new();
    while !(slow.at == TakeAt::Pop && slow.pop.at == PopStep::Read) {
        slow.step(&mut pool);
    }
    // The node is lent and comes back to a full list.
    let mut fast = TakeOp::new();
    run_take(&mut fast, &mut pool);
    assert_eq!(fast.at, TakeAt::Ready { word: word(0x1000, 1) });
    give(&mut pool, next_word(b));
    let mut op = GiveOp::new(word(0x1000, 2));
    run_give(&mut op, &mut pool);
    assert_eq!(op.at, GiveAt::Done);
    assert_eq!((pool.allocated, pool.retired), (2, 1));
    assert!(pool.stack.links.contains_key(&0x1000));

    run_take(&mut slow, &mut pool);
    assert_eq!(slow.at, TakeAt::Ready { word: word(0x2000, 1) });
    // Nobody publishes it any more.
    let mut op = GiveOp::new(word(0x2000, 2));
    run_give(&mut op, &mut pool);
    assert_eq!(op.at, GiveAt::Done);
    assert_eq!((pool.in_list, pool.retired), (1, 1));
}

#[test]
fn waiting_nodes_are_used_again() {
    let mut pool = PoolWords::new(4, 16, 2, 1, 4);
    let a = lend_new(&mut pool, 0x1000);
    let b = lend_new(&mut pool, 0x2000);
    give(&mut pool, next_word(a));
    give(&mut pool, next_word(b));
    assert_eq!((pool.in_list, pool.retired), (1, 1));
    let mut op = TakeOp::new();
    run_take(&mut op, &mut pool);
    assert_eq!(op.at, TakeAt::Ready { word: word(0x1000, 1) });

    let mut op = TakeOp::new();
    run_take(&mut op, &mut pool);
    assert_eq!(op.at, TakeAt::Recycle);
    assert_eq!(op.found, vec![0x2000]);
    assert_eq!((pool.in_list, pool.retired), (0, 0));
    assert_eq!(op.put_back(), Some(0x2000));
    assert_eq!(op.put_back(), None);
    give(&mut pool, word(0x2000, 1));
    run_take(&mut op, &mut pool);
    assert_eq!(op.at, TakeAt::Ready { word: word(0x2000, 1) });

    let mut op = TakeOp::new();
    run_take(&mut op, &mut pool);
    assert_eq!(op.at, TakeAt::Refused);
    assert!(pool.hp.is_available.iter().all(|a| *a));
}

enum Call {
    Idle,
    Take(TakeOp, Option<GiveOp>),
    Give(GiveOp),
}

/// The calls of several threads in any order: no buffer is lent twice, the pool
/// exceeds its maximum by the number of threads at most, memory is released
/// only once nobody reads it, and nothing is lost but what cannot be put back for
/// want of a handle.
fn overlapping_calls(
    seed: u64,
    handles: usize,
    alloc_max: usize,
    list_max: usize,
    retired_max: usize,
) {
    const THREADS: usize = 4;
    let mut dice = Dice(seed);
    let mut pool = PoolWords::new(handles, 16, alloc_max, list_max, retired_max);
    let mut calls: Vec<Call> = (0..THREADS).map(|_| Call::Idle).collect();
    let mut lent: Vec<u64> = vec![];
    let mut lost: Vec<u64> = vec![];
    let mut owned: Vec<u64> = vec![];
    let mut next: u64 = 0x1000;
    let mut steps: usize = 0;
    loop {
        steps += 1;
        let winding_down = steps > 4000;
        let quiet = calls.iter().all(|c| matches!(c, Call::Idle));
        if winding_down && quiet {
            break;
        }
        assert!(pool.allocated <= alloc_max + THREADS);
        let i = dice.roll(THREADS);
        let call = core::mem::replace(&mut calls[i], Call::Idle);
        calls[i] = match call {
            Call::Idle => {
                if winding_down {
                    Call::Idle
                } else if lent.is_empty() || dice.roll(2) == 0 {
                    Call::Take(TakeOp::new(), None)
                } else {
                    let w = lent.swap_remove(dice.roll(lent.len()));
                    Call::Give(GiveOp::new(next_word(w)))
                }
            }
            Call::Take(op, Some(mut inner)) => {
                if inner.at == GiveAt::Done {
                    Call::Take(op, None)
                } else if inner.at == GiveAt::Refused {
                    lost.push(inner.word);
                    Call::Take(op, None)
                } else if inner.at == GiveAt::Free && !inner.found.is_empty() {
                    let node = inner.free(&mut pool).unwrap();
                    let at = owned.iter().position(|n| *n == node);
                    owned.remove(at.expect("released twice"));
                    Call::Take(op, Some(inner))
                } else {
                    inner.step(&mut pool);
                    Call::Take(op, Some(inner))
                }
            }
            Call::Take(mut op, None) => match op.at {
                TakeAt::Ready { word } => {
                    let (node, _) = tagged_to_ptr_tag(word);
                    assert_ne!(node, 0);
                    assert!(owned.contains(&node));
                    assert!(lent.iter().all(|w| tagged_to_ptr_tag(*w).0 != node));
                    lent.push(word);
                    Call::Idle
                }
                TakeAt::Refused => Call::Idle,
                TakeAt::Grow => {
                    op.made(next);
                    owned.push(next);
                    next += 16;
                    Call::Take(op, None)
                }
                TakeAt::Recycle => match op.put_back() {
                    Some(node) => {
                        let inner = GiveOp::new(word(node, 1));
                        Call::Take(op, Some(inner))
                    }
                    None => {
                        op.step(&mut pool);
                        Call::Take(op, None)
                    }
                },
                _ => {
                    if op.at == TakeAt::Pop && op.pop.at == PopStep::Read {
                        let (node, _) = tagged_to_ptr_tag(op.pop.seen);
                        assert!(owned.contains(&node));
                    }
                    op.step(&mut pool);
                    Call::Take(op, None)
                }
            },
            Call::Give(mut op) => {
                if op.at == GiveAt::Done {
                    Call::Idle
                } else if op.at == GiveAt::Refused {
                    lent.push(op.word);
                    Call::Idle
                } else if op.at == GiveAt::Free && !op.found.is_empty() {
                    let node = op.free(&mut pool).unwrap();
                    let at = owned.iter().position(|n| *n == node);
                    owned.remove(at.expect("released twice"));
                    Call::Give(op)
                } else {
                    op.step(&mut pool);
                    Call::Give(op)
                }
            }
        };
    }
    assert_eq!(pool.allocated, owned.len());
    assert_eq!(pool.allocated, pool.in_list + pool.retired + lent.len() + lost.len());
    if handles >= 16 {
        assert!(lost.is_empty());
    }
    assert!(pool.hp.is_available.iter().all(|a| *a));
    assert!(pool.hp.locals.iter().all(|l| l.slots.iter().all(|s| *s == 0)));
    let waiting: usize = pool.hp.locals.iter().map(|l| l.retired.len()).sum();
    assert_eq!(waiting, pool.retired);
}

#[test]
fn overlapping_calls_lend_no_buffer_twice() {
    for seed in 1..=20u64 {
        let seed = seed.wrapping_mul(0x9e37_79b9_7f4a_7c15);
        overlapping_calls(seed, 16, 6, 3, 1);
        overlapping_calls(seed, 16, 3, 2, 8);
        overlapping_calls(seed, 16, 64, 64, 4);
        overlapping_calls(seed, 3, 3, 2, 8);
    }
}

/// A pool exceeds its maximum if requests find room at the same time.
#[test]
fn requests_at_the_same_time_may_exceed_the_maximum() {
    let mut pool = PoolWords::new(4, 1, 1, 4, 4);
    let mut ops: Vec<TakeOp> = (0..3).map(|_| TakeOp::new()).collect();
    for op in ops.iter_mut() {
        run_take(op, &mut pool);
        assert_eq!(op.at, TakeAt::Grow);
    }
    for (i, op) in ops.iter_mut().enumerate() {
        op.made(0x1000 + 16 * i as u64);
        run_take(op, &mut pool);
    }
    assert_eq!(pool.allocated, 3);
    let mut op = TakeOp::new();
    run_take(&mut op, &mut pool);
    assert_eq!(op.at, TakeAt::Refused);
}

/// The word of the node of a buffer.
fn node_word(s: &Freelist, buffer: u64) -> u64 {
    let (addr, tag) = tagged_to_ptr_tag(buffer);
    word(addr - s.offset as u64, tag)
}

/// Calls that do not overlap do what the methods of the pool do.
#[test]
fn calls_one_after_the_other_agree_with_the_pool() {
    let layout = Layout::from_size_align(8, 8).unwrap();
    let mut s = Freelist::new(layout).unwrap();
    s.list_max = 3;
    s.alloc_max = 6;
    s.retired_max = 2;
    let mut pool = PoolWords::new(8, 16, 6, 3, 2);
    let mut dice = Dice(0x2545_f491_4f6c_dd1d);
    let mut lent: Vec<u64> = vec![];
    let mut next: u64 = 0x1000;
    for _ in 0..2000 {
        let mut released = vec![];
        let mut freed = vec![];
        if lent.is_empty() || dice.roll(2) == 0 {
            let want = match s.reserve(&mut released) {
                Reservation::Buffer(b) => Some(node_word(&s, b.inner)),
                Reservation::Grow => {
                    let b = s.adopt(next);
                    Some(node_word(&s, b.inner))
                }
                Reservation::Exhausted => None,
            };
            let mut op = TakeOp::new();
            let got = loop {
                run_take(&mut op, &mut pool);
                match op.at {
                    TakeAt::Ready { word } => break Some(word),
                    TakeAt::Refused => break None,
                    TakeAt::Grow => {
                        op.made(next);
                        next += 16;
                    }
                    _ => {
                        let node = op.put_back().unwrap();
                        let mut back = GiveOp::new(word(node, 1));
                        run_give(&mut back, &mut pool);
                        while let Some(node) = back.free(&mut pool) {
                            freed.push(node);
                        }
                    }
                }
            };
            assert_eq!(got, want);
            lent.extend(got);
        } else {
            let w = lent.swap_remove(dice.roll(lent.len()));
            let (node, tag) = tagged_to_ptr_tag(w);
            assert!(s.dealloc(TaggedPtr::new(node + s.offset as u64, tag), &mut released));
            let mut op = GiveOp::new(next_word(w));
            run_give(&mut op, &mut pool);
            if op.at == GiveAt::Free {
                while let Some(node) = op.free(&mut pool) {
                    freed.push(node);
                }
                run_give(&mut op, &mut pool);
            }
            assert_eq!(op.at, GiveAt::Done);
        }
        assert_eq!(freed, released);
        assert_eq!(
            (pool.allocated, pool.in_list, pool.retired),
            (s.qty_allocated, s.qty_in_list, s.qty_retired)
        );
    }
}

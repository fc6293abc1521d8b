use milkyapps_core::allocators::freelist::{Freelist, Reservation};
use milkyapps_core::allocators::layout::{Layout, LayoutError};
use milkyapps_core::allocators::stack::{Node, PopOp, PopStep, PushOp, PushStep, StackWords, TaggedStack};
use milkyapps_core::ptr::TaggedPtr;

/// Chooses who acts next.
struct Dice(u64);

impl Dice {
    fn roll(&mut self, n: usize) -> usize {
        self.0 ^= self.0 << 13;
        self.0 ^= self.0 >> 7;
        self.0 ^= self.0 << 17;
        (self.0 % n as u64) as usize
    }
}

/// A pool and the memory behind it.
struct Pool {
    s: Freelist,
    next: u64,
    /// Memory that was handed out by the system and not given back.
    out: Vec<u64>,
}

impl Pool {
    fn new() -> Pool {
        let layout = Layout::from_size_align(8, 8).unwrap();
        Pool {
            s: Freelist::new(layout).unwrap(),
            next: 0x1000,
            out: vec![],
        }
    }

    fn give_back(&mut self, released: Vec<u64>) {
        for node in released {
            let at = self.out.iter().position(|n| *n == node);
            self.out.remove(at.expect("released memory that was not out"));
        }
    }

    fn take(&mut self) -> Option<TaggedPtr<()>> {
        let mut released = vec![];
        let r = match self.s.reserve(&mut released) {
            Reservation::Buffer(b) => Some(b),
            Reservation::Grow => {
                let node = self.next;
                self.next += 16;
                self.out.push(node);
                Some(self.s.adopt(node))
            }
            Reservation::Exhausted => None,
        };
        self.give_back(released);
        r
    }

    fn put(&mut self, b: TaggedPtr<()>) -> bool {
        let mut released = vec![];
        let r = self.s.dealloc(b, &mut released);
        self.give_back(released);
        r
    }

    fn head(&self) -> u64 {
        self.s.stack.head().ptr()
    }

    /// Ends the pool; what nobody holds must have gone back.
    fn finish(mut self, held: usize) {
        let mut released = vec![];
        self.s.drain(&mut released);
        self.give_back(released);
        assert_eq!(self.out.len(), held);
    }
}

#[test]
fn default_and_drop() {
    let layout = Layout::from_size_align(8, 8).unwrap();
    let _ = Freelist::new(layout);
    Pool::new().finish(0);
}

#[test]
fn test_alloc_dealloc() {
    let mut p = Pool::new();
    let buffer1 = p.take().unwrap();
    let buffer2 = p.take().unwrap();
    p.put(buffer1);
    p.put(buffer2);
    let buffer = p.take().unwrap();
    p.put(buffer);
    p.finish(0);
}

#[test]
fn freelist_is_send_sync() {
    fn assert_send<T: Send>() {}
    fn assert_sync<T: Sync>() {}
    assert_send::<Freelist>();
    assert_sync::<Freelist>();
}

#[test]
fn alloc_dealloc_recycles_same_buffer() {
    let mut p = Pool::new();
    assert!(p.head() == 0);
    let p0 = p.take().unwrap();
    let p0_ptr = p0.ptr();

    assert!(p.head() == 0);
    p.put(p0);
    assert!(p.head() != 0);

    let p1 = p.take().unwrap();
    let p1_ptr = p1.ptr();
    assert!(p.head() == 0);

    p.put(p1);
    assert!(p.head() != 0);
    assert_eq!(
        p0_ptr, p1_ptr,
        "pop must recycle the buffer that was just pushed"
    );
    p.finish(0);
}

/// One thread takes both buffers of the list and returns them while another
/// takes one, at every point in between.
#[test]
fn alloc_aba_corrupts_freelist() {
    for turn in 0..5 {
        let mut s = Pool::new();
        let a = s.take().unwrap();
        let b = s.take().unwrap();
        assert!(s.put(b));
        assert!(s.put(a));

        let mut p: Option<TaggedPtr<()>> = None;
        let mut q: Vec<TaggedPtr<()>> = vec![];
        for step in 0..5 {
            if step == turn {
                p = Some(s.take().unwrap());
            }
            match step {
                0 | 1 => q.push(s.take().unwrap()),
                2 | 3 => assert!(s.put(q[step - 2])),
                _ => {}
            }
        }

        let mut seen = Vec::new();
        for _ in 0..3 {
            if let Some(p) = s.take() {
                seen.push(p);
            }
        }
        assert_eq!(seen.len(), 3);

        let mut duplicate = false;
        for i in 0..seen.len() {
            for j in (i + 1)..seen.len() {
                if seen[i].ptr() == seen[j].ptr() {
                    duplicate = true;
                }
            }
            assert_ne!(seen[i].ptr(), p.unwrap().ptr());
        }

        for buffer in seen {
            assert!(s.put(buffer));
        }
        if let Some(buffer) = p {
            assert!(s.put(buffer));
        }
        assert!(
            !duplicate,
            "freelist handed out the same buffer twice without an intervening dealloc (ABA self-loop)"
        );
        s.finish(0);
    }
}

/// One thread pops both nodes and pushes them back while another pops one, with
/// the accesses of the two taking turns in every pattern of a good many.
#[test]
fn interleaved_steps_hand_out_no_node_twice() {
    for seed in 1u64..400 {
        let mut dice = Dice(seed.wrapping_mul(0x9e37_79b9_7f4a_7c15) | 1);
        let a = TaggedPtr::<Node>::new(0x1000, 1).inner;
        let b = TaggedPtr::<Node>::new(0x2000, 1).inner;
        let mut words = StackWords::new();
        for w in [b, a] {
            let mut op = PushOp::start(w);
            while op.at != PushStep::Done {
                op.step(&mut words);
            }
        }

        let mut pops = vec![PopOp::start(), PopOp::start()];
        let mut pushes: Vec<PushOp> = vec![];
        let mut stage = 0;
        let mut other = PopOp::start();
        let busy = |op: &PopOp| op.at != PopStep::Done && op.at != PopStep::Empty;
        while stage < 4 || busy(&other) {
            if dice.roll(2) == 0 {
                other.step(&mut words);
                continue;
            }
            match stage {
                0 | 1 => {
                    pops[stage].step(&mut words);
                    if !busy(&pops[stage]) {
                        stage += 1;
                    }
                }
                2 | 3 => {
                    let popped = pops[stage - 2];
                    if popped.at == PopStep::Empty {
                        stage += 1;
                        continue;
                    }
                    if pushes.len() == stage - 2 {
                        let mut again = TaggedPtr::<Node> {
                            inner: popped.seen,
                            target: std::marker::PhantomData,
                        };
                        again.wrapping_add_tag(1);
                        pushes.push(PushOp::start(again.inner));
                    }
                    let push = &mut pushes[stage - 2];
                    push.step(&mut words);
                    if push.at == PushStep::Done {
                        stage += 1;
                    }
                }
                _ => {}
            }
        }

        let mut seen = vec![];
        if other.at == PopStep::Done {
            seen.push(TaggedPtr::<Node>::new(other.seen & 0xffff_ffff_ffff, 0).ptr());
        }
        for _ in 0..3 {
            let mut op = PopOp::start();
            while busy(&op) {
                op.step(&mut words);
            }
            if op.at == PopStep::Done {
                seen.push(op.seen & 0xffff_ffff_ffff);
            }
        }
        let total = seen.len();
        seen.sort_unstable();
        seen.dedup();
        assert_eq!(
            seen.len(),
            total,
            "freelist handed out the same buffer twice without an intervening dealloc (ABA self-loop)"
        );
        assert_eq!(seen, vec![0x1000, 0x2000]);
    }
}

#[test]
fn concurrent_stress() {
    const THREADS: usize = 4;
    const ITERS: usize = 200;
    let mut dice = Dice(7);
    let mut p = Pool::new();
    let mut held: Vec<Vec<TaggedPtr<()>>> = vec![vec![], vec![], vec![], vec![]];
    let mut left = [ITERS; THREADS];
    while left.iter().any(|n| *n > 0) {
        let t = dice.roll(THREADS);
        if left[t] == 0 {
            continue;
        }
        left[t] -= 1;
        if let Some(b) = p.take() {
            held[t].push(b);
        }
        if held[t].len() > 8 {
            let b = held[t].pop().unwrap();
            p.put(b);
        }
    }
    for b in held.into_iter().flatten() {
        p.put(b);
    }
    p.finish(0);
}

#[test]
fn alloc_is_bounded() {
    let mut p = Pool::new();
    assert!(p.s.alloc_max > 0, "alloc_max must be positive");
    let mut buffers = vec![];
    for _ in 0..=p.s.alloc_max {
        buffers.extend(p.take());
    }
    assert_eq!(
        buffers.len(),
        p.s.alloc_max,
        "Do not allocate more than threshold"
    );
    for buffer in buffers {
        p.put(buffer);
    }
    p.finish(0);
}

#[test]
fn dealloc_must_deallocate_buffers_once_allocated_exceeds_threshold() {
    let mut p = Pool::new();
    p.s.alloc_max = 10;
    p.s.list_max = 5;
    p.s.retired_max = 4;

    let mut buffers = vec![];
    for _ in 0..p.s.alloc_max {
        buffers.extend(p.take());
    }
    for _ in 0..p.s.list_max {
        assert!(p.put(buffers.pop().unwrap()));
    }
    assert_eq!(p.s.qty_in_list, 5);
    assert_eq!(p.s.qty_retired, 0);

    for _ in 0..p.s.retired_max {
        assert!(p.put(buffers.pop().unwrap()));
    }
    assert_eq!(p.s.qty_in_list, 5);
    assert_eq!(p.s.qty_retired, 4);
    assert_eq!(p.out.len(), 10);

    assert!(p.put(buffers.pop().unwrap()));
    assert_eq!(p.s.qty_in_list, 5);
    assert_eq!(p.s.qty_retired, 0);
    assert_eq!(p.out.len(), 5);
    p.finish(0);
}

#[test]
fn dealloc_null_returns_false() {
    let mut p = Pool::new();
    let null = TaggedPtr::new(0, 0);
    assert!(!p.put(null), "dealloc of null must return false");
}

#[test]
fn alloc_max_counter_can_exceed_cap() {
    let params = (8, 8, 10);
    let mut p = Pool::new();
    p.s.alloc_max = params.0;
    p.s.list_max = params.1;
    let ceiling = params.2;
    let mut taken = 0;
    for _ in 0..p.s.alloc_max {
        for _ in 0..2 {
            if p.take().is_some() {
                taken += 1;
            }
        }
    }
    let qty = p.s.qty_allocated;
    assert!(
        qty <= ceiling,
        "qty_allocated ({qty}) can exceed alloc_max ({ceiling}) in some cases; But not too much.",
    );
    assert!(
        taken <= ceiling,
        "successful allocations ({taken}) can exceed alloc_max ({ceiling}). But not too much.",
    );
    assert_eq!(taken, 8);
}

#[test]
fn alloc_starves_despite_retired_buffers() {
    let mut p = Pool::new();
    p.s.alloc_max = 2;
    p.s.list_max = 1;
    p.s.retired_max = 1;

    let a = p.take().unwrap();
    let b = p.take().unwrap();
    assert!(p.put(a));
    assert!(p.put(b));
    let first = p.take().unwrap();
    let next = p.take();
    assert!(
        next.is_some(),
        "alloc() starved even though a retired buffer was available for reclaim"
    );
    assert_eq!(first.ptr(), a.ptr());
    assert_eq!(next.unwrap().ptr(), b.ptr());
    assert_eq!(p.s.qty_allocated, 2);
    assert_eq!(p.s.qty_retired, 0);
    assert!(p.take().is_none());
    p.finish(2);
}

#[test]
fn concurrent_alloc_returns_distinct_addresses() {
    const THREADS: usize = 2;
    const ITERS: usize = 4;
    let mut p = Pool::new();
    let mut addrs = vec![];
    for _ in 0..ITERS {
        for _ in 0..THREADS {
            addrs.extend(p.take());
        }
    }
    let mut as_int: Vec<u64> = addrs.iter().map(|b| b.ptr()).collect();
    as_int.sort_unstable();
    let before = as_int.len();
    as_int.dedup();
    assert_eq!(
        as_int.len(),
        before,
        "two concurrent allocs returned the same address (ABA / list corruption)"
    );
    assert_eq!(before, THREADS * ITERS);
    for b in addrs {
        let _ = p.put(TaggedPtr::new(b.ptr(), 0));
    }
    p.finish(0);
}

#[test]
fn no_buffer_loss_under_contention() {
    const THREADS: usize = 2;
    const ROUNDS: usize = 4;
    const PER_ROUND: usize = 4;
    for seed in 1..50 {
        let mut dice = Dice(seed);
        let mut p = Pool::new();
        let mut held: Vec<Vec<TaggedPtr<()>>> = vec![vec![], vec![]];
        let mut at = [0usize; THREADS];
        let end = ROUNDS * 2 * PER_ROUND;
        while at.iter().any(|n| *n < end) {
            let t = dice.roll(THREADS);
            if at[t] == end {
                continue;
            }
            if at[t] % (2 * PER_ROUND) < PER_ROUND {
                held[t].extend(p.take());
            } else {
                let b = held[t].remove(0);
                let _ = p.put(b);
            }
            at[t] += 1;
        }
        let allocated = p.s.qty_allocated;
        let in_list = p.s.qty_in_list;
        let retired = p.s.qty_retired;
        assert!(
            allocated >= in_list + retired,
            "qty_allocated must not underflow in_list + retired"
        );
        assert_eq!(
            allocated,
            in_list + retired,
            "allocated buffers must be accounted for (in_list + retired); \
             a mismatch means a buffer was lost or double-counted"
        );
        p.finish(0);
    }
}

#[test]
fn concurrent_dealloc_triggers_reclaim_safely() {
    for seed in 1..50 {
        let mut dice = Dice(seed);
        let mut p = Pool::new();
        p.s.list_max = 2;
        p.s.retired_max = 1;
        p.s.alloc_max = 64;
        let mut held: Vec<Vec<TaggedPtr<()>>> = vec![vec![], vec![]];
        let mut at = [0usize; 2];
        while at.iter().any(|n| *n < 16) {
            let t = dice.roll(2);
            if at[t] == 16 {
                continue;
            }
            if at[t] < 8 {
                held[t].extend(p.take());
            } else {
                let b = held[t].remove(0);
                let _ = p.put(b);
            }
            at[t] += 1;
        }
        assert_eq!(
            p.s.qty_allocated,
            p.s.qty_in_list + p.s.qty_retired,
            "accounting invariant must hold even while retiring/reclaiming concurrently"
        );
        assert_eq!(p.out.len(), p.s.qty_allocated);
        p.finish(0);
    }
}

#[test]
fn list_length_matches_counter_after_stress() {
    const THREADS: usize = 2;
    const ITERS: usize = 8;
    let mut dice = Dice(3);
    let mut p = Pool::new();
    let mut held: Vec<Vec<TaggedPtr<()>>> = vec![vec![], vec![]];
    let mut left = [ITERS; THREADS];
    while left.iter().any(|n| *n > 0) {
        let t = dice.roll(THREADS);
        if left[t] == 0 {
            continue;
        }
        left[t] -= 1;
        held[t].extend(p.take());
        if held[t].len() > 4 {
            let b = held[t].pop().unwrap();
            let _ = p.put(b);
        }
    }
    for b in held.into_iter().flatten() {
        let _ = p.put(b);
    }

    let items = p.s.items();
    let self_loop = items.windows(2).any(|w| w[0].ptr() == w[1].ptr());
    assert!(!self_loop, "freelist contains a self-loop (ABA corruption)");
    assert_eq!(
        items.len(),
        p.s.qty_in_list,
        "actual list length must match qty_in_list counter"
    );
    p.finish(0);
}

#[test]
fn alloc_max_respected_under_contention() {
    let mut p = Pool::new();
    p.s.alloc_max = 8;
    p.s.list_max = 8;
    let ceiling = p.s.alloc_max * 2;
    let mut total = 0;
    for _ in 0..p.s.alloc_max {
        for _ in 0..2 {
            if p.take().is_some() {
                total += 1;
            }
        }
    }
    assert!(
        total <= ceiling,
        "allocated {total} buffers but alloc_max is {ceiling}",
    );
    assert!(
        p.s.qty_allocated <= ceiling,
        "exactly alloc_max buffers may be freshly allocated"
    );
}

#[test]
fn alloc_after_drain_under_contention() {
    let mut p = Pool::new();
    let a = p.take().unwrap();
    let b = p.take().unwrap();
    let _ = p.put(b);
    let _ = p.put(a);
    assert!(p.head() != 0);

    let p0 = p.take().map(|b| b.ptr()).unwrap_or(0);
    let p1 = p.take().map(|b| b.ptr()).unwrap_or(0);
    assert!(p0 != 0, "thread 0 got nothing");
    assert!(p1 != 0, "thread 1 got nothing");
    assert_ne!(
        p0, p1,
        "two draining allocs returned the same node (ABA / lost update)"
    );
    let _ = p.put(TaggedPtr::new(p0, 0));
    let _ = p.put(TaggedPtr::new(p1, 0));
    p.finish(0);
}

#[test]
fn drop_with_retired_buffers_is_sound() {
    let mut p = Pool::new();
    p.s.list_max = 1;
    p.s.retired_max = 4;
    let mut held = Vec::new();
    for _ in 0..4 {
        held.push(p.take().unwrap());
    }
    for b in held {
        let _ = p.put(b);
    }
    assert_eq!(p.s.qty_retired, 3);
    assert_eq!(p.out.len(), 4);
    p.finish(0);
}

#[test]
fn recycling_does_not_grow_allocated() {
    let mut p = Pool::new();
    let first = p.take().unwrap();
    let _ = p.put(first);
    let after_first = p.s.qty_allocated;
    assert_eq!(after_first, 1, "one buffer freshly allocated");
    for _ in 0..32 {
        let b = p.take().unwrap();
        let _ = p.put(b);
    }
    assert_eq!(
        p.s.qty_allocated,
        after_first,
        "recycling must not allocate new buffers (no node was lost from the list)"
    );
}

#[test]
fn recycling_returns_same_buffer_repeatedly() {
    let mut p = Pool::new();
    let first = p.take().unwrap();
    let first_ptr = first.ptr();
    p.put(first);
    for _ in 0..16 {
        let b = p.take().unwrap();
        assert_eq!(
            b.ptr(),
            first_ptr,
            "recycling must return the same buffer, not allocate fresh memory"
        );
        p.put(b);
    }
}

#[test]
fn dealloc_maintains_lifo_order() {
    let mut p = Pool::new();
    let a = p.take().unwrap();
    let b = p.take().unwrap();
    let c = p.take().unwrap();
    p.put(a);
    p.put(b);
    p.put(c);

    let p1 = p.take().unwrap();
    let p2 = p.take().unwrap();
    let p3 = p.take().unwrap();
    assert_eq!(p1.ptr(), c.ptr());
    assert_eq!(p2.ptr(), b.ptr());
    assert_eq!(p3.ptr(), a.ptr());

    p.put(p1);
    p.put(p2);
    p.put(p3);
    p.finish(0);
}

#[test]
fn freelist_tag_wrap_does_not_corrupt() {
    // The tag of a node changes with every push, through the whole range of it
    // and round again.
    let mut stack = TaggedStack::new();
    let mut word = TaggedPtr::<Node>::new(0x1000, 0);
    let cycles = 3 * (u16::MAX as usize);
    for _ in 0..cycles {
        word.wrapping_add_tag(1);
        stack.push(word);
        word = stack.pop().unwrap();
    }
    word.wrapping_add_tag(1);
    stack.push(word);
    let items = stack.items();
    assert_eq!(items.len(), 1, "list length matches counter after tag wrap");
    assert_eq!(items[0].ptr(), 0x1000, "tag wrap produced a self-loop (ABA)");

    let mut p = Pool::new();
    for _ in 0..cycles {
        let b = p.take().unwrap();
        let _ = p.put(b);
    }
    let items = p.s.items();
    let self_loop = items.windows(2).any(|w| w[0].ptr() == w[1].ptr());
    assert!(!self_loop, "tag wrap produced a self-loop (ABA)");
    assert_eq!(
        items.len(),
        p.s.qty_in_list,
        "list length matches counter after tag wrap"
    );
}

#[test]
fn buffers_carry_the_tag_of_their_last_return() {
    let mut p = Pool::new();
    let a = p.take().unwrap();
    assert_eq!(a.inner >> 48, 0);
    p.put(a);
    let a = p.take().unwrap();
    assert_eq!(a.inner >> 48, 1);
    p.put(a);
    let a = p.take().unwrap();
    assert_eq!(a.inner >> 48, 2);
    assert_eq!(a.ptr(), 0x1000 + 8);
}

#[test]
fn layouts_are_combined() {
    let eight = Layout::from_size_align(8, 8).unwrap();
    let pool = Freelist::new(eight).unwrap();
    assert_eq!(*pool.layout(), eight);
    assert_eq!(pool.record, Layout { size: 16, align: 8 });
    assert_eq!(pool.offset, 8);
    let small = Layout::from_size_align(3, 1).unwrap();
    let pool = Freelist::new(small).unwrap();
    assert_eq!(*pool.layout(), small);
    assert_eq!(pool.record, Layout { size: 11, align: 8 });
    assert_eq!(pool.offset, 8);
    let wide = Layout::from_size_align(64, 64).unwrap();
    let pool = Freelist::new(wide).unwrap();
    assert_eq!(*pool.layout(), wide);
    assert_eq!(pool.record, Layout { size: 128, align: 64 });
    assert_eq!(pool.offset, 64);
}

#[test]
fn lent_buffers_satisfy_the_layout() {
    let wide = Layout::from_size_align(40, 32).unwrap();
    let mut pool = Freelist::new(wide).unwrap();
    let step = (pool.record.size as u64).next_multiple_of(pool.record.align as u64);
    let mut next = 0x1000;
    let mut lent: Vec<TaggedPtr<()>> = vec![];
    let mut released = vec![];
    for round in 0..20 {
        match pool.reserve(&mut released) {
            Reservation::Buffer(b) => lent.push(b),
            Reservation::Grow => {
                lent.push(pool.adopt(next));
                next += step;
            }
            Reservation::Exhausted => unreachable!(),
        }
        if round % 3 == 2 {
            assert!(pool.dealloc(lent.remove(0), &mut released));
        }
        let mut addrs: Vec<u64> = lent.iter().map(|b| b.ptr()).collect();
        addrs.sort_unstable();
        assert!(addrs.iter().all(|a| *a != 0 && a % 32 == 0));
        assert!(addrs.windows(2).all(|w| w[0] + 40 <= w[1]));
    }
    assert!(released.is_empty());
}

#[test]
fn layouts_out_of_range_are_refused() {
    assert_eq!(Layout::from_size_align(8, 0), Err(LayoutError));
    assert_eq!(Layout::from_size_align(8, 3), Err(LayoutError));
    let most = isize::MAX as usize;
    assert_eq!(Layout::from_size_align(most, 2), Err(LayoutError));
    let large = Layout::from_size_align(most - 7, 8).unwrap();
    assert!(Freelist::new(large).is_err());
    let edge = Layout::from_size_align(most - 15, 8).unwrap();
    assert!(Freelist::new(edge).is_ok());
}

#[test]
fn every_handle_is_free_between_operations() {
    let mut p = Pool::new();
    p.s.list_max = 1;
    p.s.retired_max = 1;
    let a = p.take().unwrap();
    let b = p.take().unwrap();
    let c = p.take().unwrap();
    assert!(p.put(a));
    assert!(p.put(b));
    assert!(p.put(c));
    let _ = p.take();
    let mut locals = vec![];
    while let Some(l) = p.s.hp.local() {
        locals.push(l);
    }
    assert_eq!(locals.len(), 1024);
}

#[test]
fn a_pop_does_not_read_a_released_node() {
    let a = TaggedPtr::<Node>::new(0x1000, 1).inner;
    let b = TaggedPtr::<Node>::new(0x2000, 1).inner;
    let mut words = StackWords::new();
    for w in [b, a] {
        let mut op = PushOp::start(w);
        while op.at != PushStep::Done {
            op.step(&mut words);
        }
    }
    let mut slow = PopOp::start();
    slow.step(&mut words);
    assert_eq!((slow.at, slow.seen), (PopStep::Check, a));

    // Another pop takes the node, and nobody publishes it: it is released.
    let mut fast = PopOp::start();
    while fast.at != PopStep::Done {
        fast.step(&mut words);
    }
    assert_eq!(fast.seen, a);
    words.links.remove(&0x1000);

    slow.step(&mut words);
    assert_eq!(slow.at, PopStep::Load);
    while slow.at != PopStep::Done {
        slow.step(&mut words);
    }
    assert_eq!(slow.seen, b);
}

use milkyapps_core::sync::atomic_option::AtomicOption;
use milkyapps_core::sync::barrier::{Arrival, Barrier};
use milkyapps_core::sync::oneshot::{oneshot, SendOp, SendStep, COPYING, DONE, EMPTY};
use milkyapps_core::sync::spinlock::Spinlock;

#[test]
fn barrier_reusable_across_generations() {
    const N: usize = 3;
    const GENS: usize = 3;
    let mut barrier = Barrier::new(N);
    let mut phase = 0;
    let mut waiting: Vec<usize> = vec![];
    for _ in 0..N * GENS {
        match barrier.arrive() {
            Arrival::Wait(generation) => waiting.push(generation),
            Arrival::Tripped => {
                assert!(waiting.iter().all(|g| barrier.may_pass(*g)));
                phase += waiting.len() + 1;
                waiting.clear();
            }
            Arrival::Open => unreachable!(),
        }
    }
    assert_eq!(
        phase,
        N * GENS,
        "all threads must complete all generations (no deadlock)"
    );
}

#[test]
fn barrier_no_thread_passes_before_all_arrive() {
    const N: usize = 3;
    let mut barrier = Barrier::new(N);
    let mut before = 0;
    for _ in 0..N {
        before += 1;
        match barrier.arrive() {
            Arrival::Wait(generation) => assert!(!barrier.may_pass(generation)),
            _ => assert_eq!(
                before, N,
                "a thread passed the barrier before all threads arrived"
            ),
        }
    }
    assert!(barrier.may_pass(0));
}

#[test]
fn barrier_of_one_does_not_block() {
    let mut barrier = Barrier::new(1);
    let mut count = 0;
    for _ in 0..4 {
        assert_eq!(barrier.arrive(), Arrival::Tripped);
        count += 1;
    }
    assert_eq!(count, 4);
}

#[test]
fn barrier_of_zero_is_no_op() {
    let mut barrier = Barrier::new(0);
    assert_eq!(barrier.arrive(), Arrival::Open);
    assert_eq!(barrier.arrive(), Arrival::Open);
}

#[test]
fn take_returns_none_when_empty() {
    let mut a = AtomicOption::<u32>::default();
    assert!(a.take().is_none());
}

#[test]
fn replace_then_take_roundtrips() {
    let mut a = AtomicOption::default();
    assert!(a.replace(7).is_none(), "first replace returns None");
    assert_eq!(a.take(), Some(7));
    assert!(a.take().is_none(), "second take returns None");
}

#[test]
fn replace_returns_previous() {
    let mut a = AtomicOption::default();
    a.replace(1);
    assert_eq!(a.replace(2), Some(1));
    assert_eq!(a.take(), Some(2));
}

#[test]
fn take_and_take_do_not_race() {
    let mut a = AtomicOption::default();
    a.replace(1u32);
    let got = [a.take(), a.take()];
    assert_eq!(got.iter().flatten().count(), 1);
}

#[test]
fn replace_and_take_do_not_race() {
    for pattern in 0u32..1 << 16 {
        if pattern.count_ones() != 8 {
            continue;
        }
        let mut a = AtomicOption::default();
        let mut next = 0u32;
        let mut seen = vec![];
        for turn in 0..16 {
            if pattern >> turn & 1 == 0 {
                seen.extend(a.replace(next));
                next += 1;
            } else {
                seen.extend(a.take());
            }
        }
        seen.extend(a.take());
        assert_eq!(seen, (0..8).collect::<Vec<u32>>());
    }
}

#[test]
fn spinlock_lets_one_in() {
    let mut lock = Spinlock::default();
    let guard = lock.try_lock().unwrap();
    assert!(lock.try_lock().is_none());
    guard.release(&mut lock);
    let guard = lock.lock();
    assert!(lock.try_lock().is_none());
    guard.release(&mut lock);
    assert!(lock.try_lock().is_some());
}

#[test]
fn oneshot_delivers_once() {
    let (mut shared, tx, rx) = oneshot::<String>();
    assert!(!rx.has_value(&shared));
    assert!(rx.try_recv(&mut shared).is_none());
    tx.send(&mut shared, "hi".to_string());
    assert!(rx.has_value(&shared));
    assert_eq!(rx.try_recv(&mut shared).as_deref(), Some("hi"));
    assert!(!rx.has_value(&shared));
    assert!(rx.try_recv(&mut shared).is_none());
    assert!(!rx.has_value(&shared));
}

#[test]
fn oneshot_shows_nothing_before_the_item_is_in_place() {
    let (mut shared, _tx, rx) = oneshot::<u32>();
    let mut op = SendOp::start(9);
    let mut words = vec![shared.lock];
    while op.at != SendStep::Done {
        assert_eq!(rx.try_recv(&mut shared), None);
        op.step(&mut shared);
        words.push(shared.lock);
    }
    assert_eq!(words, vec![EMPTY, COPYING, COPYING, DONE]);
    assert_eq!(rx.try_recv(&mut shared), Some(9));
}

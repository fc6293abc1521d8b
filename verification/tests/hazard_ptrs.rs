use milkyapps_core::hazard_ptrs as plain;
use milkyapps_core::smr::hazard_ptrs::HazardPointers;
use milkyapps_core::smr::reclaim::{Reclaim, ReclaimAt};

const A: u64 = 0x1000;
const B: u64 = 0x2000;
const C: u64 = 0x3000;

#[test]
fn hazard_pointers_is_send_sync() {
    fn assert_send<T: Send>() {}
    fn assert_sync<T: Sync>() {}
    assert_send::<HazardPointers<u64>>();
    assert_sync::<HazardPointers<u64>>();
}

#[test]
fn hazard_ptrs_protect_unprotect_must_use_slots() {
    let mut hp = HazardPointers::<u64>::with_capacity(8, 8);
    let local = hp.local().unwrap();
    assert!(
        local.get_slot(&hp, 0).unwrap() == 0,
        "Slot should not be protecting any pointer"
    );
    let g = local.protect(&mut hp, A).unwrap();
    assert_eq!(local.get_slot(&hp, 0).unwrap(), A, "Slow should be protecting ptr");
    g.unprotect(&mut hp);
    assert!(
        local.get_slot(&hp, 0).unwrap() == 0,
        "Slot should not be protecting ptr anymore"
    );
    assert!(local.get_slot(&hp, 8).is_none());
    local.finish(&mut hp);

    let mut hp = plain::HazardPointers::<u64>::with_capacity(8, 8);
    let local = hp.local().unwrap();
    assert!(local.get_slot(&hp, 0).unwrap() == 0);
    let g = local.protect(&mut hp, A).unwrap();
    assert_eq!(local.get_slot(&hp, 0).unwrap(), A);
    g.unprotect(&mut hp);
    assert!(local.get_slot(&hp, 0).unwrap() == 0);
    local.finish(&mut hp);
}

#[test]
fn hazard_ptrs_more_protects_than_slots() {
    let mut hp = HazardPointers::<u64>::with_capacity(8, 8);
    let local = hp.local().unwrap();
    let mut guards = vec![];
    for _ in 0..9 {
        guards.push(local.protect(&mut hp, A));
    }
    let some_qty = guards.iter().filter(|x| x.is_some()).count();
    let none_qty = guards.iter().filter(|x| x.is_none()).count();
    assert_eq!(some_qty, 8);
    assert_eq!(none_qty, 1);
    for g in guards.into_iter().flatten() {
        g.unprotect(&mut hp);
    }
    local.finish(&mut hp);

    let mut hp = plain::HazardPointers::<u64>::with_capacity(8, 8);
    let local = hp.local().unwrap();
    let mut guards = vec![];
    for _ in 0..9 {
        guards.push(local.protect(&mut hp, A));
    }
    let some_qty = guards.iter().filter(|x| x.is_some()).count();
    let none_qty = guards.iter().filter(|x| x.is_none()).count();
    assert_eq!(some_qty, 8);
    assert_eq!(none_qty, 1);
    for g in guards.into_iter().flatten() {
        g.unprotect(&mut hp);
    }
    local.finish(&mut hp);
}

#[test]
fn hazard_ptrs_reclaim_empty() {
    let mut hp = HazardPointers::<u64>::with_capacity(8, 8);
    let local = hp.local().unwrap();
    assert!(local.retire_head(&hp).is_none(), "Retire list should be empty");
    let mut v = Vec::new();
    hp.reclaim(&mut v);
    assert!(v.is_empty(), "Reclaim Vec should be empty");
    assert!(local.retire_head(&hp).is_none(), "Retire list should be empty");
    local.finish(&mut hp);

    let mut hp = plain::HazardPointers::<u64>::with_capacity(8, 8);
    let local = hp.local().unwrap();
    assert!(local.retire_head(&hp).is_none());
    let mut v = Vec::new();
    hp.reclaim(&mut v);
    assert!(v.is_empty());
    assert!(local.retire_head(&hp).is_none());
    local.finish(&mut hp);
}

#[test]
fn hazard_ptrs_single_protect_retire_and_reclaim() {
    let mut hp = HazardPointers::<u64>::with_capacity(8, 8);
    let local = hp.local().unwrap();
    let g = local.protect(&mut hp, A).unwrap();
    assert!(g.retire(&mut hp));
    let mut v = Vec::with_capacity(16);
    hp.reclaim(&mut v);
    assert_eq!(v.len(), 1, "Only one pointer should have been reclaimed");
    assert_eq!(v[0], A, "Reclaimed pointer should be the retired one");
    local.finish(&mut hp);

    let mut hp = plain::HazardPointers::<u64>::with_capacity(8, 8);
    let local = hp.local().unwrap();
    let g = local.protect(&mut hp, A).unwrap();
    g.retire(&mut hp);
    let mut v = Vec::with_capacity(16);
    hp.reclaim(&mut v);
    assert_eq!(v.len(), 1);
    assert_eq!(v[0], A);
    local.finish(&mut hp);
}

#[test]
fn hazard_ptrs_protect_prevents_reclaim() {
    let mut hp = HazardPointers::<u64>::with_capacity(8, 8);
    let local1 = hp.local().unwrap();
    let local2 = hp.local().unwrap();

    let g11 = local1.protect(&mut hp, A).unwrap();
    let g12 = local2.protect(&mut hp, A).unwrap();
    let _ = g12.retire(&mut hp);

    assert!(local1.retire_head(&hp).is_none(), "Retire List should be empty");
    assert!(local2.retire_head(&hp).is_some(), "Retire List should not be empty");

    let mut v = Vec::new();
    hp.reclaim(&mut v);
    assert!(v.is_empty(), "ptr is still protected and should not be reclaimed");

    g11.unprotect(&mut hp);
    hp.reclaim(&mut v);
    assert_eq!(v.len(), 1, "Only one pointer should have been reclaimed");
    assert_eq!(v[0], A, "Reclaimed pointer should be the retired one");
    assert!(local1.retire_head(&hp).is_none(), "Retire List should be empty");
    assert!(local2.retire_head(&hp).is_none(), "Retire List should be empty");

    local1.finish(&mut hp);
    local2.finish(&mut hp);

    let mut hp = plain::HazardPointers::<u64>::with_capacity(8, 8);
    let local1 = hp.local().unwrap();
    let local2 = hp.local().unwrap();
    let g11 = local1.protect(&mut hp, A).unwrap();
    let g12 = local2.protect(&mut hp, A).unwrap();
    g12.retire(&mut hp);
    assert!(local1.retire_head(&hp).is_none());
    assert!(local2.retire_head(&hp).is_some());
    let mut v = Vec::new();
    hp.reclaim(&mut v);
    assert!(v.is_empty());
    g11.unprotect(&mut hp);
    hp.reclaim(&mut v);
    assert_eq!(v.len(), 1);
    assert_eq!(v[0], A);
    assert!(local1.retire_head(&hp).is_none());
    assert!(local2.retire_head(&hp).is_none());
    local1.finish(&mut hp);
    local2.finish(&mut hp);
}

#[test]
fn hazard_ptrs_multiple_retirements() {
    let mut hp = HazardPointers::<u64>::with_capacity(8, 8);
    let local1 = hp.local().unwrap();
    let local2 = hp.local().unwrap();
    let local3 = hp.local().unwrap();
    let _ = local1.protect(&mut hp, A).unwrap().retire(&mut hp);
    let _ = local2.protect(&mut hp, B).unwrap().retire(&mut hp);
    let _ = local3.protect(&mut hp, C).unwrap().retire(&mut hp);
    local1.finish(&mut hp);
    local2.finish(&mut hp);
    local3.finish(&mut hp);
    let mut v = Vec::new();
    hp.reclaim(&mut v);
    assert_eq!(v.len(), 3, "All retired pointer should have been reclaimed");

    let mut hp = plain::HazardPointers::<u64>::with_capacity(8, 8);
    let local1 = hp.local().unwrap();
    let local2 = hp.local().unwrap();
    let local3 = hp.local().unwrap();
    local1.protect(&mut hp, A).unwrap().retire(&mut hp);
    local2.protect(&mut hp, B).unwrap().retire(&mut hp);
    local3.protect(&mut hp, C).unwrap().retire(&mut hp);
    local1.finish(&mut hp);
    local2.finish(&mut hp);
    local3.finish(&mut hp);
    let mut v = Vec::new();
    hp.reclaim(&mut v);
    assert_eq!(v.len(), 3);
}

#[test]
fn hazard_ptrs_partial_reclaim() {
    let mut hp = HazardPointers::<u64>::with_capacity(8, 8);
    let local = hp.local().unwrap();
    let g11 = local.protect(&mut hp, A).unwrap();
    let g12 = local.protect(&mut hp, A).unwrap();
    let _ = g12.retire(&mut hp);
    let g2 = local.protect(&mut hp, B).unwrap();
    let _ = g2.retire(&mut hp);
    let mut v = Vec::new();
    hp.reclaim(&mut v);
    assert_eq!(v.len(), 1, "Only one pointer should have been reclaimed");
    assert_eq!(v[0], B, "Only ptr2 is not protected");
    let _ = g11.retire(&mut hp);
    local.finish(&mut hp);
    let mut v = vec![];
    hp.reclaim(&mut v);
    assert_eq!(v, vec![A]);

    let mut hp = plain::HazardPointers::<u64>::with_capacity(8, 8);
    let local = hp.local().unwrap();
    let g11 = local.protect(&mut hp, A).unwrap();
    let g12 = local.protect(&mut hp, A).unwrap();
    g12.retire(&mut hp);
    let g2 = local.protect(&mut hp, B).unwrap();
    g2.retire(&mut hp);
    let mut v = Vec::new();
    hp.reclaim(&mut v);
    assert_eq!(v.len(), 1);
    assert_eq!(v[0], B);
    g11.retire(&mut hp);
    local.finish(&mut hp);
    let mut v = vec![];
    hp.reclaim(&mut v);
}

/// Several holders of handles protect; all slots show it until they release.
#[test]
fn hazard_ptrs_protect_multi_thread() {
    let qty_threads = 2;

    let mut hp = HazardPointers::<u64>::with_capacity(8, 8);
    let mut held = vec![];
    for t in 0..qty_threads {
        let local = hp.local().unwrap();
        let g = local.protect(&mut hp, A + 8 * t).unwrap();
        held.push((local, g));
    }
    for l in hp.locals.iter().take(qty_threads as usize) {
        if let Some(slot) = l.get_slot(0) {
            assert!(slot != 0, "Pointer should be protected");
        }
    }
    for (local, g) in held {
        g.unprotect(&mut hp);
        local.finish(&mut hp);
    }
    for l in &hp.locals {
        if let Some(slot) = l.get_slot(0) {
            assert!(slot == 0, "Pointer should not be protected");
        }
    }

    let mut hp = plain::HazardPointers::<u64>::with_capacity(8, 8);
    let mut held = vec![];
    for t in 0..qty_threads {
        let local = hp.local().unwrap();
        let g = local.protect(&mut hp, A + 8 * t).unwrap();
        held.push((local, g));
    }
    for l in hp.registry.locals.iter().take(qty_threads as usize) {
        assert!(l.get_slot(0).unwrap() != 0);
    }
    for (local, g) in held {
        g.unprotect(&mut hp);
        local.finish(&mut hp);
    }
    for l in &hp.registry.locals {
        assert!(l.get_slot(0).unwrap() == 0);
    }
}

#[test]
fn hazard_ptrs_high_contention_protect_and_retire() {
    let qty_threads = 2u64;
    let items_per_thread = 100u64;

    let mut hp = HazardPointers::<u64>::with_capacity(8, 8);
    let locals: Vec<_> = (0..qty_threads).map(|_| hp.local().unwrap()).collect();
    let mut retired_qty = 0;
    for i in 0..items_per_thread {
        for (t, local) in locals.iter().enumerate() {
            let ptr = A + 8 * (t as u64 * items_per_thread + i);
            if let Some(g) = local.protect(&mut hp, ptr) {
                let _ = g.retire(&mut hp);
                retired_qty += 1;
            }
        }
    }
    for local in locals {
        local.finish(&mut hp);
    }
    let mut v = Vec::new();
    hp.reclaim(&mut v);
    assert_eq!(
        v.len(),
        retired_qty,
        "All pointers that were retired should be reclaimed"
    );
    assert_eq!(retired_qty, 200);

    let mut hp = plain::HazardPointers::<u64>::with_capacity(8, 8);
    let locals: Vec<_> = (0..qty_threads).map(|_| hp.local().unwrap()).collect();
    let mut retired_qty = 0;
    for i in 0..items_per_thread {
        for (t, local) in locals.iter().enumerate() {
            let ptr = A + 8 * (t as u64 * items_per_thread + i);
            if let Some(g) = local.protect(&mut hp, ptr) {
                g.retire(&mut hp);
                retired_qty += 1;
            }
        }
    }
    for local in locals {
        local.finish(&mut hp);
    }
    let mut v = Vec::new();
    hp.reclaim(&mut v);
    assert_eq!(v.len(), retired_qty);
}

#[test]
fn hazard_ptrs_mixed_concurrent_access() {
    let mut hp = HazardPointers::<u64>::with_capacity(8, 8);
    let reader = hp.local().unwrap();
    let g = reader.protect(&mut hp, A).unwrap();
    let writer = hp.local().unwrap();
    let g2 = writer.protect(&mut hp, A).unwrap();
    let _ = g2.retire(&mut hp);
    writer.finish(&mut hp);
    let mut v = Vec::new();
    hp.reclaim(&mut v);
    assert!(v.is_empty(), "g is still protected by thread 1");
    g.unprotect(&mut hp);
    reader.finish(&mut hp);
    let mut v = Vec::new();
    hp.reclaim(&mut v);
    assert_eq!(v.len(), 1, "Now g is reclaimed");
    assert_eq!(v[0], A, "Now g is reclaimed");

    let mut hp = plain::HazardPointers::<u64>::with_capacity(8, 8);
    let reader = hp.local().unwrap();
    let g = reader.protect(&mut hp, A).unwrap();
    let writer = hp.local().unwrap();
    let g2 = writer.protect(&mut hp, A).unwrap();
    g2.retire(&mut hp);
    writer.finish(&mut hp);
    let mut v = Vec::new();
    hp.reclaim(&mut v);
    assert!(v.is_empty());
    g.unprotect(&mut hp);
    reader.finish(&mut hp);
    let mut v = Vec::new();
    hp.reclaim(&mut v);
    assert_eq!(v, vec![A]);
}

#[test]
fn hazard_ptrs_local_finish_must_set_local_as_available() {
    let mut hp = HazardPointers::<u64>::with_capacity(2, 2);
    let local1 = hp.local().unwrap();
    let local2 = hp.local().unwrap();
    assert!(hp.local().is_none(), "Local should have returned None");
    local1.finish(&mut hp);
    local2.finish(&mut hp);
    let local1 = hp.local().unwrap();
    let local2 = hp.local().unwrap();
    assert!(hp.local().is_none(), "Local should have returned None");
    local1.finish(&mut hp);
    local2.finish(&mut hp);

    let mut hp = plain::HazardPointers::<u64>::with_capacity(2, 2);
    let local1 = hp.local().unwrap();
    let local2 = hp.local().unwrap();
    assert!(hp.local().is_none());
    local1.finish(&mut hp);
    local2.finish(&mut hp);
    let local1 = hp.local().unwrap();
    let local2 = hp.local().unwrap();
    assert!(hp.local().is_none());
    local1.finish(&mut hp);
    local2.finish(&mut hp);
}

#[test]
fn hazard_ptrs_slots_remain_reusable_across_cycles() {
    let mut hp = HazardPointers::<u64>::with_capacity(2, 2);
    for _ in 0..16 {
        let local = hp.local().unwrap();
        for _ in 0..16 {
            let g = local.protect(&mut hp, A).unwrap();
            g.unprotect(&mut hp);
        }
        local.finish(&mut hp);
    }

    let mut hp = plain::HazardPointers::<u64>::with_capacity(2, 2);
    for _ in 0..16 {
        let local = hp.local().unwrap();
        for _ in 0..16 {
            let g = local.protect(&mut hp, A).unwrap();
            g.unprotect(&mut hp);
        }
        local.finish(&mut hp);
    }
}

/// A guard that is given up trips the bomb and still releases its slot.
#[test]
fn hazard_ptrs_guard_drop() {
    let mut hp = HazardPointers::<u64>::with_capacity(8, 8);
    let local = hp.local().unwrap();
    assert!(local.get_slot(&hp, 0).unwrap() == 0, "slot should be free");
    let g = local.protect(&mut hp, A).unwrap();
    assert!(local.get_slot(&hp, 0).unwrap() != 0, "ptr is protected");
    assert!(g.abandon(&mut hp), "dropping a live guard must trip the drop bomb");
    assert!(local.get_slot(&hp, 0).unwrap() == 0, "slot should be free now");
    let null = local.protect(&mut hp, 0).unwrap();
    assert!(!null.abandon(&mut hp));
    local.finish(&mut hp);

    let mut hp = plain::HazardPointers::<u64>::with_capacity(8, 8);
    let local = hp.local().unwrap();
    let g = local.protect(&mut hp, A).unwrap();
    assert!(local.get_slot(&hp, 0).unwrap() != 0);
    g.abandon(&mut hp);
    assert!(local.get_slot(&hp, 0).unwrap() == 0);
    local.finish(&mut hp);
}

#[test]
fn hazard_ptrs_double_retire() {
    let mut hp = HazardPointers::<u64>::with_capacity(8, 8);
    let local = hp.local().unwrap();
    let g1 = local.protect(&mut hp, A).unwrap();
    let _ = g1.retire(&mut hp);
    let g2 = local.protect(&mut hp, A).unwrap();
    let _ = g2.retire(&mut hp);
    let mut v = vec![];
    hp.reclaim(&mut v);
    assert!(v.len() == 1, "Pointer should be returned only once");
    local.finish(&mut hp);

    let mut hp = plain::HazardPointers::<u64>::with_capacity(8, 8);
    let local = hp.local().unwrap();
    let g1 = local.protect(&mut hp, A).unwrap();
    g1.retire(&mut hp);
    let g2 = local.protect(&mut hp, A).unwrap();
    g2.retire(&mut hp);
    let mut v = vec![];
    hp.reclaim(&mut v);
    assert!(v.len() == 1);
    local.finish(&mut hp);
}

#[test]
fn hazard_ptrs_protect_null_pointer() {
    let mut hp = HazardPointers::<u64>::with_capacity(8, 8);
    let local = hp.local().unwrap();
    let g = local.protect(&mut hp, 0).unwrap();
    g.unprotect(&mut hp);
    let g = local.protect(&mut hp, 0).unwrap();
    assert!(!g.retire(&mut hp), "Retiring null pointer should return false");
    local.finish(&mut hp);

    let mut hp = plain::HazardPointers::<u64>::with_capacity(8, 8);
    let local = hp.local().unwrap();
    assert!(
        local.protect(&mut hp, 0).is_none(),
        "Should return None for null pointers"
    );
    local.finish(&mut hp);
}

#[test]
fn hazard_ptrs_empty_slots_must_not_protect_any_pointer() {
    let mut hp = HazardPointers::<u64>::with_capacity(8, 8);
    let local = hp.local().unwrap();
    let mut reclaimed = Vec::new();
    hp.reclaim(&mut reclaimed);
    assert!(reclaimed.is_empty());
    assert!(!hp.is_protected(A));
    assert!(!hp.is_protected(0));
    let g = local.protect(&mut hp, A).unwrap();
    assert!(hp.is_protected(A));
    let _ = g.retire(&mut hp);
    let mut reclaimed = Vec::new();
    hp.reclaim(&mut reclaimed);
    assert_eq!(reclaimed.len(), 1);
    assert_eq!(reclaimed[0], A);
    local.finish(&mut hp);

    let mut hp = plain::HazardPointers::<u64>::with_capacity(8, 8);
    let local = hp.local().unwrap();
    let mut reclaimed = Vec::new();
    hp.reclaim(&mut reclaimed);
    assert!(reclaimed.is_empty());
    assert!(!hp.is_protected(A));
    let g = local.protect(&mut hp, A).unwrap();
    g.retire(&mut hp);
    let mut reclaimed = Vec::new();
    hp.reclaim(&mut reclaimed);
    assert_eq!(reclaimed.len(), 1);
    assert_eq!(reclaimed[0], A);
    local.finish(&mut hp);
}

#[test]
fn hazard_ptrs_zero_locals_returns_none() {
    let mut hp = HazardPointers::<u64>::with_capacity(0, 8);
    assert!(hp.local().is_none(), "With zero locals, local() must return None");
    let mut hp = plain::HazardPointers::<u64>::with_capacity(0, 8);
    assert!(hp.local().is_none());
}

#[test]
fn reclaim_is_idempotent_once_drained() {
    let mut hp = HazardPointers::<u64>::with_capacity(8, 8);
    let local = hp.local().unwrap();
    let ptrs: Vec<u64> = (0..4).map(|i| A + 8 * i).collect();
    for &p in &ptrs {
        let _ = local.protect(&mut hp, p).unwrap().retire(&mut hp);
    }
    local.finish(&mut hp);

    let mut v1 = Vec::new();
    hp.reclaim(&mut v1);
    assert_eq!(v1.len(), ptrs.len(), "first reclaim returns all retired ptrs");
    let mut v2 = Vec::new();
    hp.reclaim(&mut v2);
    assert!(
        v2.is_empty(),
        "second reclaim on a drained retire list must return nothing (ABA leak)"
    );
}

/// Two reclamations, their accesses taking turns in many patterns.
#[test]
fn concurrent_reclaim_no_double_reclaim() {
    const N: usize = 8;
    for pattern in 1u64..200 {
        let mut hp = HazardPointers::<usize>::with_capacity(8, 8);
        let mut claimed = vec![false; N];
        let local = hp.local().unwrap();
        for i in 0..N {
            let _ = local.protect(&mut hp, A + i as u64).unwrap().retire(&mut hp);
        }
        local.finish(&mut hp);

        let mut runs = [Reclaim::start(), Reclaim::start()];
        let mut bits = pattern.wrapping_mul(0x9e37_79b9_7f4a_7c15);
        while runs.iter().any(|r| r.at != ReclaimAt::Done) {
            let who = (bits & 1) as usize;
            bits = bits.rotate_right(1);
            runs[who].step(&mut hp);
        }
        for run in &runs {
            for p in &run.handed {
                let idx = (*p - A) as usize;
                assert!(!claimed[idx], "pointer {idx} reclaimed twice (double free / ABA)");
                claimed[idx] = true;
            }
        }
        let total = claimed.iter().filter(|b| **b).count();
        assert_eq!(
            total, N,
            "every retired pointer must be reclaimed exactly once (no loss, no double)"
        );
    }
}

/// Retirements and a reclamation that drains repeatedly, step by step.
#[test]
fn concurrent_retire_and_reclaim_counts_match() {
    const THREADS: usize = 2;
    const PER: usize = 4;
    let mut hp = HazardPointers::<u64>::with_capacity(8, 8);
    let mut retired = 0;
    let mut reclaimed = 0;
    let locals: Vec<_> = (0..THREADS).map(|_| hp.local().unwrap()).collect();
    let mut run = Reclaim::start();
    let mut next = A;
    for _ in 0..PER {
        for local in &locals {
            let _ = local.protect(&mut hp, next).unwrap().retire(&mut hp);
            next += 8;
            retired += 1;
            for _ in 0..3 {
                run.step(&mut hp);
                if run.at == ReclaimAt::Done {
                    reclaimed += run.handed.len();
                    run = Reclaim::start();
                }
            }
        }
    }
    while run.at != ReclaimAt::Done {
        run.step(&mut hp);
    }
    reclaimed += run.handed.len();
    for local in locals {
        local.finish(&mut hp);
    }

    let mut v = Vec::new();
    hp.reclaim(&mut v);
    reclaimed += v.len();
    assert_eq!(
        retired, reclaimed,
        "every retired pointer must be reclaimed exactly once (no loss, no double)"
    );
}

#[test]
fn two_protectors_block_reclaim() {
    let mut hp = HazardPointers::<u64>::with_capacity(8, 8);
    let mut protectors = vec![];
    for _ in 0..2 {
        let local = hp.local().unwrap();
        let g = local.protect(&mut hp, A).unwrap();
        protectors.push((local, g));
    }
    let local = hp.local().unwrap();
    let g = local.protect(&mut hp, A).unwrap();
    let _ = g.retire(&mut hp);
    local.finish(&mut hp);

    let mut v = Vec::new();
    hp.reclaim(&mut v);
    assert!(
        v.is_empty(),
        "ptr still protected by two threads; must not be reclaimed"
    );
    let (local, g) = protectors.pop().unwrap();
    g.unprotect(&mut hp);
    local.finish(&mut hp);
    hp.reclaim(&mut v);
    assert!(v.is_empty());
    let (local, g) = protectors.pop().unwrap();
    g.unprotect(&mut hp);
    local.finish(&mut hp);

    let mut v = Vec::new();
    hp.reclaim(&mut v);
    assert_eq!(v.len(), 1, "ptr reclaimed after both protectors release");
    assert_eq!(v[0], A);
}

#[test]
fn local_exhaustion_returns_none_under_contention() {
    let mut hp = HazardPointers::<u64>::with_capacity(2, 2);
    let mut acquired = vec![];
    let mut failed = 0;
    for _ in 0..3 {
        match hp.local() {
            Some(l) => acquired.push(l),
            None => failed += 1,
        }
    }
    assert_eq!(
        acquired.len() + failed,
        3,
        "every thread must observe exactly one outcome"
    );
    assert_eq!(acquired.len(), 2, "only two locals exist");
    assert_eq!(failed, 1, "one thread must get None");
    assert_ne!(acquired[0].id, acquired[1].id);
    for l in acquired {
        l.finish(&mut hp);
    }
}

#[test]
fn retire_reclaim_burst_no_panic_or_deadlock() {
    const THREADS: usize = 2;
    const ITERS: usize = 8;
    let mut hp = HazardPointers::<u64>::with_capacity(8, 8);
    let locals: Vec<_> = (0..THREADS).map(|_| hp.local().unwrap()).collect();
    let mut next = A;
    for _ in 0..ITERS {
        for local in &locals {
            let _ = local.protect(&mut hp, next).unwrap().retire(&mut hp);
            next += 8;
            let mut v = Vec::new();
            hp.reclaim(&mut v);
        }
    }
    for local in locals {
        local.finish(&mut hp);
    }
    let mut v = Vec::new();
    hp.reclaim(&mut v);
    assert!(
        v.is_empty(),
        "after everyone joined, a final reclaim must drain everything"
    );
}

#[test]
fn retire_reclaim_reuse_retire_cycle() {
    let mut hp = HazardPointers::<u64>::with_capacity(8, 8);
    for _ in 0..16 {
        let local = hp.local().unwrap();
        let _ = local.protect(&mut hp, A).unwrap().retire(&mut hp);
        local.finish(&mut hp);
        let mut v = Vec::new();
        hp.reclaim(&mut v);
        assert_eq!(v.len(), 1, "exactly one pointer reclaimed per cycle");
        assert_eq!(v[0], A, "reclaimed pointer must be the one we retired");
    }
}

#[test]
fn many_protectors_one_reclaimer_no_early_reclaim() {
    const PROTECTORS: usize = 2;
    let mut hp = HazardPointers::<u64>::with_capacity(8, 8);
    let mut protectors = vec![];
    for _ in 0..PROTECTORS {
        let local = hp.local().unwrap();
        let g = local.protect(&mut hp, A).unwrap();
        protectors.push((local, g));
    }
    let local = hp.local().unwrap();
    let g = local.protect(&mut hp, A).unwrap();
    let _ = g.retire(&mut hp);
    local.finish(&mut hp);
    for _ in 0..3 {
        let mut v = Vec::new();
        hp.reclaim(&mut v);
        assert!(v.is_empty(), "pointer reclaimed while still protected");
    }
    for (local, g) in protectors {
        g.unprotect(&mut hp);
        local.finish(&mut hp);
    }
    let mut v = Vec::new();
    hp.reclaim(&mut v);
    assert_eq!(v.len(), 1, "pointer reclaimed after all protectors released");
}

#[test]
fn reclaim_keeps_what_the_vec_held_and_sorts_it() {
    let mut hp = HazardPointers::<u64>::with_capacity(2, 2);
    let local = hp.local().unwrap();
    let _ = local.protect(&mut hp, B).unwrap().retire(&mut hp);
    local.finish(&mut hp);
    let mut v = vec![C, A, C];
    hp.reclaim(&mut v);
    assert_eq!(v, vec![A, B, C]);
}

#[test]
fn finish_unprotects_everything_that_is_left() {
    let mut hp = HazardPointers::<u64>::with_capacity(2, 2);
    let local = hp.local().unwrap();
    let _forgotten = local.protect(&mut hp, A);
    assert!(hp.is_protected(A));
    local.finish(&mut hp);
    assert!(!hp.is_protected(A));
}

#[test]
fn protected_pointers_go_back_to_the_list_in_reverse() {
    let mut hp = HazardPointers::<u64>::with_capacity(2, 4);
    let keeper = hp.local().unwrap();
    let ga = keeper.protect(&mut hp, A).unwrap();
    let gc = keeper.protect(&mut hp, C).unwrap();
    let local = hp.local().unwrap();
    for p in [A, B, C] {
        let _ = local.protect(&mut hp, p).unwrap().retire(&mut hp);
    }
    assert_eq!(local.retire_head(&hp), Some(C));
    let mut v = vec![];
    hp.reclaim(&mut v);
    assert_eq!(v, vec![B]);
    assert_eq!(local.retire_head(&hp), Some(A));
    ga.unprotect(&mut hp);
    gc.unprotect(&mut hp);
    hp.reclaim(&mut v);
    assert_eq!(v, vec![A, B, C]);
    keeper.finish(&mut hp);
    local.finish(&mut hp);
}

#[test]
fn a_pointer_protected_during_a_reclamation_is_put_back() {
    let mut hp = HazardPointers::<u64>::with_capacity(3, 2);
    let reader = hp.local().unwrap();
    let g = reader.protect(&mut hp, A).unwrap();
    let other = hp.local().unwrap();
    let _ = other.protect(&mut hp, A).unwrap().retire(&mut hp);
    let mut run = Reclaim::start();
    while run.at != ReclaimAt::Done {
        run.step(&mut hp);
        // Someone protects and releases other pointers all the while.
        if let Some(x) = other.protect(&mut hp, B) {
            x.unprotect(&mut hp);
        }
    }
    assert!(run.handed.is_empty());
    assert_eq!(other.retire_head(&hp), Some(A));
    g.unprotect(&mut hp);
    reader.finish(&mut hp);
    other.finish(&mut hp);
}

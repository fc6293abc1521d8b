//! What holds of hazard pointers across several operations, and however the
//! steps of several threads are interleaved.

use super::hazard_ptrs::HazardView;
use super::reclaim;
use super::reclaim::{ReclaimAt, ReclaimState};
use vstd::multiset::*;
use vstd::prelude::*;
use vstd::seq_lib::*;

verus! {

/// A handle that is held is not given out again: the next handle is another
/// one.
pub proof fn held_handle_is_not_given_out(v: HazardView, held: int, given: int)
    requires
        0 <= held < v.available.len(),
        !v.available[held],
        v.is_first_available(given),
    ensures
        given != held,
{
}

/// A handle that has been released can be had again.
pub proof fn released_handle_is_available(v: HazardView, l: int)
    requires
        0 <= l < v.available.len(),
        v.available.len() == v.slots.len(),
    ensures
        v.finished(l).available[l],
        forall|s: int, p: u64| p != 0 ==> !#[trigger] v.finished(l).publishes(l, s, p),
        forall|k: int, s: int, p: u64|
            k != l ==> #[trigger] v.finished(l).publishes(k, s, p) == v.publishes(k, s, p),
        v.finished(l).retired == v.retired,
{
}

/// Releasing a handle changes nothing about the others.
pub proof fn releasing_a_handle_spares_the_others(v: HazardView, l: int, k: int)
    requires
        0 <= l < v.available.len(),
        v.available.len() == v.slots.len(),
        0 <= k < v.available.len(),
        k != l,
    ensures
        v.finished(l).available.len() == v.available.len(),
        v.finished(l).available[k] == v.available[k],
        v.finished(l).slots.len() == v.slots.len(),
        v.finished(l).slots[k] == v.slots[k],
        v.finished(l).slots[l].len() == v.slots[l].len(),
{
}

/// The handle that is given out is free, and none in front of it is; so a handle
/// that is released while all in front of it are held is the next one.
pub proof fn lowest_free_handle_is_given_out(v: HazardView, given: int, l: int)
    requires
        v.available.len() == v.slots.len(),
    ensures
        v.is_first_available(given) ==> 0 <= given < v.available.len() && v.available[given],
        v.is_first_available(given) && 0 <= l < v.available.len() && v.available[l] ==> given <= l,
        0 <= l < v.available.len() && (forall|k: int|
            0 <= k < l ==> !#[trigger] v.available[k]) ==> v.finished(l).is_first_available(l),
{
}

/// The slot that a pointer goes to is empty, and none in front of it is; so a
/// slot that is cleared while all in front of it are in use is the next one.
pub proof fn lowest_empty_slot_is_used(v: HazardView, l: int, used: int, s: int)
    requires
        0 <= l < v.slots.len(),
    ensures
        v.is_first_empty(l, used) ==> v.publishes(l, used, 0),
        v.is_first_empty(l, used) && v.publishes(l, s, 0) ==> used <= s,
        0 <= s < v.slots[l].len() && (forall|k: int|
            0 <= k < s ==> #[trigger] v.slots[l][k] != 0) ==> v.with_slot(l, s, 0).is_first_empty(
            l,
            s,
        ),
{
}

/// A pointer is protected exactly while some slot publishes it; null never is.
/// Publishing one through a slot protects it and takes nothing from any other
/// slot, and changes neither which handles are free nor what waits.
pub proof fn published_pointers_are_protected(v: HazardView, l: int, s: int, p: u64)
    requires
        0 <= l < v.slots.len(),
        0 <= s < v.slots[l].len(),
    ensures
        !v.protects(0),
        v.slots[l][s] != 0 ==> v.protects(v.slots[l][s]),
        p != 0 ==> v.with_slot(l, s, p).protects(p),
        p != 0 && (forall|k: int, t: int|
            0 <= k < v.slots.len() && 0 <= t < v.slots[k].len() ==> #[trigger] v.slots[k][t] != p)
            ==> !v.protects(p),
        forall|k: int, t: int|
            0 <= k < v.slots.len() && 0 <= t < v.slots[k].len() && (k != l || t != s)
                ==> #[trigger] v.with_slot(l, s, p).slots[k][t] == v.slots[k][t],
        v.with_slot(l, s, p).slots[l][s] == p,
        v.with_slot(l, s, p).available == v.available,
        v.with_slot(l, s, p).retired == v.retired,
{
    assert(v.publishes(l, s, v.slots[l][s]));
    assert(v.with_slot(l, s, p).publishes(l, s, p));
    if v.protects(p) {
        let (k, t) = choose|k: int, t: int| #[trigger] v.publishes(k, t, p);
        assert(v.slots[k][t] == p);
    }
}

/// A pointer that is retired through any handle waits, everything that waited
/// still does, and nothing else; retiring neither protects nor frees anything.
pub proof fn retired_pointer_waits(v: HazardView, l: int, p: u64, q: u64)
    requires
        0 <= l < v.retired.len(),
    ensures
        v.with_retired(l, p).waits(q) <==> v.waits(q) || q == p,
        v.with_retired(l, p).slots == v.slots,
        v.with_retired(l, p).available == v.available,
        v.with_retired(l, p).retired[l].last() == p,
        forall|k: int|
            0 <= k < v.retired.len() && k != l ==> #[trigger] v.with_retired(l, p).retired[k]
                == v.retired[k],
        v.retired.len() == 1 && v.retired[0].len() == 0 ==> !v.waits(q),
{
    let w = v.with_retired(l, p);
    assert(w.retired[l][v.retired[l].len() as int] == p);
    assert(w.retired[l].contains(p));
    if v.waits(q) {
        let k = choose|k: int| 0 <= k < v.retired.len() && (#[trigger] v.retired[k]).contains(q);
        let i = choose|i: int| 0 <= i < v.retired[k].len() && v.retired[k][i] == q;
        assert(w.retired[k][i] == q);
        assert(w.retired[k].contains(q));
    }
    if w.waits(q) && q != p {
        let k = choose|k: int| 0 <= k < w.retired.len() && (#[trigger] w.retired[k]).contains(q);
        let i = choose|i: int| 0 <= i < w.retired[k].len() && w.retired[k][i] == q;
        assert(v.retired[k][i] == q);
        assert(v.retired[k].contains(q));
    }
}

/// Reclaiming changes neither what the slots publish nor which handles are free.
pub proof fn reclaiming_spares_slots_and_handles(v: HazardView)
    ensures
        v.reclaimed().slots == v.slots,
        v.reclaimed().available == v.available,
        v.reclaimed().retired.len() == v.retired.len(),
{
}

/// A reclamation puts a pointer back only where it sees it published, and hands
/// one out only once it has looked at every slot, null aside. It takes each list
/// whole, and is done only when no list is left.
pub proof fn pointers_go_back_only_if_published(st: ReclaimState, v: HazardView)
    requires
        st.busy() ==> st.taken.len() > 0,
        0 <= st.scan_local,
        0 <= st.scan_slot,
    ensures
        ({
            let (after, w) = reclaim::reclaim_next(st, v);
            &&& st.at == ReclaimAt::Look && after.at == ReclaimAt::Back ==> st.taken.last() != 0
                && v.publishes(st.scan_local, st.scan_slot, st.taken.last())
            &&& after.handed != st.handed ==> st.at == ReclaimAt::Look && after.handed
                == st.handed.push(st.taken.last()) && (st.taken.last() == 0 || st.scan_local
                >= v.slots.len())
            &&& st.at == ReclaimAt::Look && st.taken.last() == 0 ==> after.handed
                == st.handed.push(0)
            &&& st.at == ReclaimAt::Look && st.scan_local >= v.slots.len() ==> after.handed
                == st.handed.push(st.taken.last())
            &&& w.retired != v.retired ==> st.at == ReclaimAt::Take || st.at == ReclaimAt::Back
            &&& w.slots == v.slots && w.available == v.available
            &&& st.at == ReclaimAt::Take && 0 <= st.local < v.retired.len() ==> after.taken
                == v.retired[st.local] && w.retired[st.local].len() == 0
            &&& after.at == ReclaimAt::Done && st.at != ReclaimAt::Done ==> st.local
                >= v.retired.len()
        }),
{
}

/// Protecting a pointer takes no slot away from a live guard.
pub proof fn live_guards_keep_their_slots(v: HazardView, l: int, s: int, p: u64)
    requires
        0 <= l < v.slots.len(),
        v.is_first_empty(l, s),
        p != 0,
    ensures
        v.with_slot(l, s, p).protects(p),
        forall|k: int, t: int, q: u64|
            q != 0 && v.publishes(k, t, q) ==> (k != l || t != s) && #[trigger] v.with_slot(
                l,
                s,
                p,
            ).publishes(k, t, q),
{
    assert(v.with_slot(l, s, p).publishes(l, s, p));
}

/// A pointer that two guards protect stays protected when one of them is
/// released.
pub proof fn two_guards_both_count(v: HazardView, l: int, s: int, k: int, t: int, p: u64)
    requires
        p != 0,
        v.publishes(l, s, p),
        v.publishes(k, t, p),
        l != k || s != t,
    ensures
        v.with_slot(l, s, 0).protects(p),
{
    assert(v.with_slot(l, s, 0).publishes(k, t, p));
}

/// Filtering keeps exactly what passes the filter.
proof fn lemma_kept_contains(v: HazardView, list: Seq<u64>, p: u64)
    ensures
        v.kept(list).contains(p) <==> list.contains(p) && v.protects(p),
{
    broadcast use group_filter_ensures;

    let keep = |q: u64| v.protects(q);
    let f = list.filter(keep);
    if v.kept(list).contains(p) {
        let i = choose|i: int| 0 <= i < f.reverse().len() && f.reverse()[i] == p;
        assert(f[f.len() - 1 - i] == p);
        assert(keep(f[f.len() - 1 - i]));
        list.lemma_filter_contains_rev(keep, p);
    }
    if list.contains(p) && v.protects(p) {
        let k = choose|k: int| 0 <= k < list.len() && list[k] == p;
        assert(keep(list[k]));
        assert(f.contains(list[k]));
        let i = choose|i: int| 0 <= i < f.len() && f[i] == p;
        assert(f.reverse()[f.len() - 1 - i] == p);
    }
}

/// After a reclamation exactly the protected pointers still wait.
pub proof fn protected_pointers_keep_waiting(v: HazardView, p: u64)
    ensures
        v.reclaimed().waits(p) <==> v.waits(p) && v.protects(p),
{
    let w = v.reclaimed();
    if w.waits(p) {
        let l = choose|l: int| 0 <= l < w.retired.len() && (#[trigger] w.retired[l]).contains(p);
        lemma_kept_contains(v, v.retired[l], p);
        assert(v.retired[l].contains(p));
    }
    if v.waits(p) && v.protects(p) {
        let l = choose|l: int| 0 <= l < v.retired.len() && (#[trigger] v.retired[l]).contains(p);
        lemma_kept_contains(v, v.retired[l], p);
        assert(w.retired[l].contains(p));
    }
}

/// A second reclamation with no change in between hands out nothing: whatever
/// still waits is protected.
pub proof fn reclaiming_twice_hands_out_nothing_more(v: HazardView, p: u64)
    ensures
        !(v.reclaimed().waits(p) && !v.reclaimed().protects(p)),
{
    protected_pointers_keep_waiting(v, p);
    if v.protects(p) {
        let (l, s) = choose|l: int, s: int| #[trigger] v.publishes(l, s, p);
        assert(v.reclaimed().publishes(l, s, p));
    }
}

/// Whether a reclamation went through these states while the registry was in
/// these ones; in between other threads may have changed it in any way.
pub open spec fn is_run(states: Seq<ReclaimState>, views: Seq<HazardView>) -> bool {
    &&& states.len() == views.len() + 1
    &&& states[0] == ReclaimState::start()
    &&& forall|k: int|
        0 <= k < views.len() ==> states[k + 1] == reclaim::reclaim_next(
            states[k],
            #[trigger] views[k],
        ).0
}

/// A pointer that one slot publishes from some point of a reclamation on is not
/// handed out, whatever other threads do meanwhile, unless the reclamation had
/// handed it out before that, or had it in hand and had passed the slot.
pub proof fn guarded_pointer_is_not_handed_out(
    states: Seq<ReclaimState>,
    views: Seq<HazardView>,
    l: int,
    s: int,
    p: u64,
    m: int,
    n: int,
)
    requires
        is_run(states, views),
        p != 0,
        0 <= m <= n <= views.len(),
        !states[m].handed.contains(p),
        !states[m].taken.contains(p) || !states[m].looks_for(p) || states[m].ahead(l, s),
        forall|k: int| m <= k < n ==> (#[trigger] views[k]).publishes(l, s, p),
    ensures
        !states[n].handed.contains(p),
{
    lemma_guarded(states, views, l, s, p, m, n);
}

/// A reclamation that has pointers in hand has at least one.
proof fn lemma_busy_holds_some(states: Seq<ReclaimState>, views: Seq<HazardView>, n: int)
    requires
        is_run(states, views),
        0 <= n <= views.len(),
    ensures
        states[n].busy() ==> states[n].taken.len() > 0,
    decreases n,
{
    if n > 0 {
        lemma_busy_holds_some(states, views, n - 1);
        assert(states[n] == reclaim::reclaim_next(states[n - 1], views[n - 1]).0);
    }
}

/// While a slot publishes a pointer, the pointer is not handed out; and a
/// reclamation that looks for it has not yet passed the slot.
proof fn lemma_guarded(
    states: Seq<ReclaimState>,
    views: Seq<HazardView>,
    l: int,
    s: int,
    p: u64,
    m: int,
    n: int,
)
    requires
        is_run(states, views),
        p != 0,
        0 <= m <= n <= views.len(),
        !states[m].handed.contains(p),
        !states[m].taken.contains(p) || !states[m].looks_for(p) || states[m].ahead(l, s),
        forall|k: int| m <= k < n ==> (#[trigger] views[k]).publishes(l, s, p),
    ensures
        !states[n].handed.contains(p),
        states[n].busy() ==> states[n].taken.len() > 0,
        states[n].looks_for(p) ==> states[n].ahead(l, s),
    decreases n,
{
    lemma_busy_holds_some(states, views, n);
    if n > m {
        lemma_guarded(states, views, l, s, p, m, n - 1);
        let st = states[n - 1];
        let v = views[n - 1];
        assert(v.publishes(l, s, p));
        let after = states[n];
        assert(after == reclaim::reclaim_next(st, v).0);
        if after.handed.contains(p) {
            let i = choose|i: int| 0 <= i < after.handed.len() && after.handed[i] == p;
            if i < st.handed.len() {
                assert(st.handed[i] == p);
            }
            assert(false);
        }
    } else if states[n].at == ReclaimAt::Look {
        assert(states[n].taken.contains(states[n].in_hand())) by {
            assert(states[n].in_hand() == states[n].taken[states[n].taken.len() - 1]);
        }
    }
}

/// All pointers in some lists, with their multiplicity.
pub open spec fn pooled(lists: Seq<Seq<u64>>) -> Multiset<u64>
    decreases lists.len(),
{
    if lists.len() == 0 {
        Multiset::empty()
    } else {
        pooled(lists.drop_last()).add(lists.last().to_multiset())
    }
}

/// Exchanging one list exchanges its pointers.
proof fn lemma_pool_update(lists: Seq<Seq<u64>>, l: int, new: Seq<u64>)
    requires
        0 <= l < lists.len(),
    ensures
        pooled(lists.update(l, new)).add(lists[l].to_multiset()) == pooled(lists).add(
            new.to_multiset(),
        ),
    decreases lists.len(),
{
    broadcast use group_multiset_axioms;

    let changed = lists.update(l, new);
    if l == lists.len() - 1 {
        assert(changed.drop_last() =~= lists.drop_last());
    } else {
        assert(changed.drop_last() =~= lists.drop_last().update(l, new));
        lemma_pool_update(lists.drop_last(), l, new);
        assert(changed.last() == lists.last());
        let front = lists.drop_last();
        assert(front[l] == lists[l]);
        let a = pooled(front.update(l, new)).add(lists[l].to_multiset());
        let b = pooled(front).add(new.to_multiset());
        assert(a == b);
        assert forall|q: u64| #[trigger]
            pooled(changed).add(lists[l].to_multiset()).count(q) == pooled(lists).add(
                new.to_multiset(),
            ).count(q) by {
            assert(a.count(q) == b.count(q));
        }
    }
    assert(pooled(changed).add(lists[l].to_multiset()) =~= pooled(lists).add(new.to_multiset()));
}

/// Every pointer that waits, that a reclamation has in hand, or that it has
/// handed out.
pub open spec fn accounted(st: ReclaimState, v: HazardView) -> Multiset<u64> {
    pooled(v.retired).add(st.taken.to_multiset()).add(st.handed.to_multiset())
}

/// No step of a reclamation loses a retired pointer or counts it twice, in
/// whatever state other threads have left the registry. So however several
/// reclamations and retirements are interleaved, every retired pointer is
/// handed out at most once for every time that it was retired.
pub proof fn reclaiming_loses_and_doubles_nothing(st: ReclaimState, v: HazardView)
    requires
        st.at == ReclaimAt::Take ==> st.taken.len() == 0,
        st.busy() ==> st.taken.len() > 0 && 0 <= st.local < v.retired.len(),
        0 <= st.local,
    ensures
        ({
            let (after, w) = reclaim::reclaim_next(st, v);
            accounted(after, w) == accounted(st, v)
        }),
{
    broadcast use group_multiset_axioms;
    broadcast use group_to_multiset_ensures;

    let (after, w) = reclaim::reclaim_next(st, v);
    if st.at == ReclaimAt::Take && st.local < v.retired.len() {
        lemma_pool_update(v.retired, st.local, Seq::empty());
        assert(st.taken =~= Seq::empty());
        assert(Seq::<u64>::empty().to_multiset() =~= Multiset::empty());
        assert(after.taken == v.retired[st.local]);
        assert(accounted(after, w) =~= accounted(st, v));
    } else if st.busy() {
        let p = st.in_hand();
        let rest = st.taken.drop_last();
        assert(st.taken =~= rest.push(p));
        assert(st.taken.to_multiset() =~= rest.to_multiset().insert(p));
        if st.at == ReclaimAt::Back {
            let list = v.retired[st.local];
            lemma_pool_update(v.retired, st.local, list.push(p));
            assert(list.push(p).to_multiset() =~= list.to_multiset().insert(p));
            assert forall|q: u64| #[trigger]
                accounted(after, w).count(q) == accounted(st, v).count(q) by {
                let a = pooled(w.retired).add(list.to_multiset());
                let b = pooled(v.retired).add(list.push(p).to_multiset());
                assert(a.count(q) == b.count(q));
            }
        } else {
            assert(st.handed.push(p).to_multiset() =~= st.handed.to_multiset().insert(p));
        }
        assert(accounted(after, w) =~= accounted(st, v));
    }
}

/// Retiring a pointer adds it once to what waits.
pub proof fn retiring_adds_one(v: HazardView, l: int, p: u64)
    requires
        0 <= l < v.retired.len(),
    ensures
        pooled(v.with_retired(l, p).retired) == pooled(v.retired).insert(p),
{
    broadcast use group_multiset_axioms;
    broadcast use group_to_multiset_ensures;

    let list = v.retired[l];
    lemma_pool_update(v.retired, l, list.push(p));
    assert(list.push(p).to_multiset() =~= list.to_multiset().insert(p));
    let w = v.with_retired(l, p);
    assert forall|q: u64| #[trigger]
        pooled(w.retired).count(q) == pooled(v.retired).insert(p).count(q) by {
        let a = pooled(w.retired).add(list.to_multiset());
        let b = pooled(v.retired).add(list.push(p).to_multiset());
        assert(a.count(q) == b.count(q));
    }
    assert(pooled(w.retired) =~= pooled(v.retired).insert(p));
}

} // verus!

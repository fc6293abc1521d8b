//! Reclamation, one access to shared memory at a time.
//!
//! A reclamation takes the retirement list of every handle in turn. For each
//! pointer of the list it looks at all hazard slots: a pointer that one of them
//! publishes goes back to the list, any other is handed out. [`Reclaim::step`]
//! performs at most one access to the registry, so other threads may act
//! between any two steps.

use super::hazard_ptrs::{HazardPointers, HazardView};
use crate::order;
use vstd::multiset::*;
use vstd::prelude::*;
use vstd::seq_lib::*;

verus! {

/// What a reclamation does next.
#[derive(Clone, Copy, Debug, PartialEq, Eq, Structural)]
pub enum ReclaimAt {
    /// Takes the list of the next handle.
    Take,
    /// Looks at a hazard slot for the pointer in hand.
    Look,
    /// Puts the pointer in hand back.
    Back,
    /// Nothing: it is complete.
    Done,
}

/// The state of a reclamation.
#[verifier::ext_equal]
pub struct ReclaimState {
    pub at: ReclaimAt,
    /// The handle whose list is being worked on.
    pub local: int,
    /// What is left of this list; the pointer in hand is the last one.
    pub taken: Seq<u64>,
    /// The pointers that are safe to release.
    pub handed: Seq<u64>,
    /// The hazard slot that is looked at next.
    pub scan_local: int,
    pub scan_slot: int,
}

impl ReclaimState {
    /// A reclamation that has not begun.
    pub open spec fn start() -> ReclaimState {
        ReclaimState {
            at: ReclaimAt::Take,
            local: 0,
            taken: Seq::empty(),
            handed: Seq::empty(),
            scan_local: 0,
            scan_slot: 0,
        }
    }

    /// Whether a pointer is in hand.
    pub open spec fn busy(self) -> bool {
        self.at == ReclaimAt::Look || self.at == ReclaimAt::Back
    }

    /// The pointer in hand.
    pub open spec fn in_hand(self) -> u64 {
        self.taken.last()
    }

    /// Whether `p` is in hand and hazard slots are being looked at for it.
    pub open spec fn looks_for(self, p: u64) -> bool {
        self.at == ReclaimAt::Look && self.in_hand() == p
    }

    /// The state with this list still to be worked on.
    pub open spec fn turned_to(self, taken: Seq<u64>) -> ReclaimState {
        if taken.len() == 0 {
            ReclaimState { at: ReclaimAt::Take, local: self.local + 1, taken, ..self }
        } else {
            ReclaimState { at: ReclaimAt::Look, taken, scan_local: 0, scan_slot: 0, ..self }
        }
    }

    /// Whether the slot `s` of handle `l` is still to be looked at.
    pub open spec fn ahead(self, l: int, s: int) -> bool {
        self.scan_local < l || self.scan_local == l && self.scan_slot <= s
    }
}

/// One step of a reclamation: its new state and that of the registry.
pub open spec fn reclaim_next(st: ReclaimState, v: HazardView) -> (ReclaimState, HazardView) {
    match st.at {
        ReclaimAt::Done => (st, v),
        ReclaimAt::Take => if st.local >= v.retired.len() {
            (ReclaimState { at: ReclaimAt::Done, ..st }, v)
        } else {
            (
                st.turned_to(v.retired[st.local]),
                HazardView { retired: v.retired.update(st.local, Seq::empty()), ..v },
            )
        },
        ReclaimAt::Look => {
            let p = st.in_hand();
            if p == 0 || st.scan_local >= v.slots.len() {
                let handed = ReclaimState { handed: st.handed.push(p), ..st };
                (handed.turned_to(st.taken.drop_last()), v)
            } else if st.scan_slot >= v.slots[st.scan_local].len() {
                (ReclaimState { scan_local: st.scan_local + 1, scan_slot: 0, ..st }, v)
            } else if v.slots[st.scan_local][st.scan_slot] == p {
                (ReclaimState { at: ReclaimAt::Back, ..st }, v)
            } else {
                (ReclaimState { scan_slot: st.scan_slot + 1, ..st }, v)
            }
        },
        ReclaimAt::Back => (
            st.turned_to(st.taken.drop_last()),
            v.with_retired(st.local, st.in_hand()),
        ),
    }
}

/// A reclamation in progress.
#[derive(Debug)]
pub struct Reclaim {
    pub at: ReclaimAt,
    pub local: usize,
    pub taken: Vec<u64>,
    pub handed: Vec<u64>,
    pub scan_local: usize,
    pub scan_slot: usize,
}

impl View for Reclaim {
    type V = ReclaimState;

    open spec fn view(&self) -> ReclaimState {
        ReclaimState {
            at: self.at,
            local: self.local as int,
            taken: self.taken@,
            handed: self.handed@,
            scan_local: self.scan_local as int,
            scan_slot: self.scan_slot as int,
        }
    }
}

impl Reclaim {
    /// Whether the state makes sense for a registry with `n` handles.
    pub open spec fn fits(&self, n: nat) -> bool {
        &&& self@.busy() ==> self.taken@.len() > 0 && self.local < n
        &&& self.local <= n
    }

    /// A reclamation that has not begun.
    pub fn start() -> (r: Self)
        ensures
            r@ == ReclaimState::start(),
    {
        let r = Reclaim {
            at: ReclaimAt::Take,
            local: 0,
            taken: Vec::new(),
            handed: Vec::new(),
            scan_local: 0,
            scan_slot: 0,
        };
        assert(r@ =~= ReclaimState::start());
        r
    }

    fn turn(&mut self)
        requires
            old(self).local < usize::MAX,
        ensures
            final(self)@ == old(self)@.turned_to(old(self).taken@),
    {
        if self.taken.len() == 0 {
            self.at = ReclaimAt::Take;
            self.local = self.local + 1;
        } else {
            self.at = ReclaimAt::Look;
            self.scan_local = 0;
            self.scan_slot = 0;
        }
        assert(self@ =~= old(self)@.turned_to(old(self).taken@));
    }

    /// Performs one step.
    pub fn step<T>(&mut self, hp: &mut HazardPointers<T>)
        requires
            old(hp).wf(),
            old(self).fits(old(hp).locals@.len()),
        ensures
            final(hp).wf(),
            final(hp).locals@.len() == old(hp).locals@.len(),
            final(self).fits(final(hp).locals@.len()),
            (final(self)@, final(hp)@) == reclaim_next(old(self)@, old(hp)@),
    {
        let ghost st = self@;
        let ghost v = hp@;
        assert(hp.locals@.len() == hp.locals.len());
        match self.at {
            ReclaimAt::Done => {},
            ReclaimAt::Take => {
                if self.local >= hp.locals.len() {
                    self.at = ReclaimAt::Done;
                } else {
                    let mut list: Vec<u64> = Vec::new();
                    core::mem::swap(&mut list, &mut hp.locals[self.local].retired);
                    self.taken = list;
                    proof {
                        let want = v.retired.update(st.local, Seq::empty());
                        assert(hp@.retired =~= want);
                        assert(hp@.slots =~= v.slots);
                    }
                    self.turn();
                }
            },
            ReclaimAt::Look => {
                let p: u64 = self.taken[self.taken.len() - 1];
                if p == 0 || self.scan_local >= hp.locals.len() {
                    self.handed.push(p);
                    let _ = self.taken.pop();
                    assert(self.taken@ =~= st.taken.drop_last());
                    self.turn();
                } else if self.scan_slot >= hp.locals[self.scan_local].slots.len() {
                    self.scan_local = self.scan_local + 1;
                    self.scan_slot = 0;
                } else if hp.locals[self.scan_local].slots[self.scan_slot] == p {
                    self.at = ReclaimAt::Back;
                } else {
                    self.scan_slot = self.scan_slot + 1;
                }
            },
            ReclaimAt::Back => {
                let p: u64 = self.taken[self.taken.len() - 1];
                hp.locals[self.local].push_retire_node(p);
                let _ = self.taken.pop();
                proof {
                    let want = v.with_retired(st.local, p);
                    assert(hp@.retired =~= want.retired);
                    assert(hp@.slots =~= want.slots);
                    assert(self.taken@ =~= st.taken.drop_last());
                }
                self.turn();
            },
        }
        assert(self@ =~= reclaim_next(st, v).0);
        assert(hp@ =~= reclaim_next(st, v).1);
    }
}

/// Whether a reclamation that runs alone, on a registry that was in state
/// `base`, is on its way: earlier lists hold what they keep, later ones are
/// untouched, and of the current one a part has been worked on.
spec fn underway(base: HazardView, st: ReclaimState, v: HazardView) -> bool {
    let n = base.retired.len() as int;
    let k = st.taken.len() as int;
    let list = base.retired[st.local];
    &&& v.slots == base.slots
    &&& v.available == base.available
    &&& v.retired.len() == n
    &&& 0 <= st.local <= n
    &&& forall|l: int| 0 <= l < st.local ==> #[trigger] v.retired[l] == base.kept(base.retired[l])
    &&& forall|l: int| st.local < l < n ==> #[trigger] v.retired[l] == base.retired[l]
    &&& match st.at {
        ReclaimAt::Done => st.local == n && k == 0,
        ReclaimAt::Take => k == 0 && (st.local < n ==> v.retired[st.local] == list),
        _ => {
            &&& st.local < n
            &&& 0 < k <= list.len()
            &&& st.taken == list.take(k)
            &&& v.retired[st.local] == base.kept(list.skip(k))
        },
    }
    &&& st.at == ReclaimAt::Look ==> {
        &&& 0 <= st.scan_local <= base.slots.len()
        &&& 0 <= st.scan_slot
        &&& st.scan_local < base.slots.len() ==> st.scan_slot <= base.slots[st.scan_local].len()
        &&& forall|l: int, s: int|
            !st.ahead(l, s) ==> !#[trigger] base.publishes(l, s, st.in_hand())
    }
    &&& st.at == ReclaimAt::Back ==> base.protects(st.in_hand())
}

/// Whether `x` stood in a part of the lists that has been worked on.
spec fn worked_on(base: HazardView, st: ReclaimState, x: u64) -> bool {
    ||| exists|l: int| 0 <= l < st.local && (#[trigger] base.retired[l]).contains(x)
    ||| st.busy() && base.retired[st.local].skip(st.taken.len() as int).contains(x)
}

/// Whether exactly the unprotected pointers worked on have been handed out.
spec fn handed_right(base: HazardView, st: ReclaimState) -> bool {
    forall|x: u64|
        #[trigger] st.handed.contains(x) <==> !base.protects(x) && worked_on(base, st, x)
}

/// Working on one pointer keeps the books right.
proof fn lemma_worked_on(base: HazardView, st: ReclaimState, after: ReclaimState)
    requires
        st.busy(),
        0 <= st.local < base.retired.len(),
        0 < st.taken.len() <= base.retired[st.local].len(),
        st.taken == base.retired[st.local].take(st.taken.len() as int),
        after.at == st.turned_to(st.taken.drop_last()).at,
        after.local == st.turned_to(st.taken.drop_last()).local,
        after.taken == st.taken.drop_last(),
    ensures
        forall|x: u64|
            worked_on(base, after, x) <==> worked_on(base, st, x) || x == st.in_hand(),
{
    let k = st.taken.len() as int;
    let list = base.retired[st.local];
    let p = st.in_hand();
    assert(p == list[k - 1]);
    assert(list.skip(k - 1) =~= seq![p] + list.skip(k));
    assert forall|x: u64| worked_on(base, after, x) <==> worked_on(base, st, x) || x == p by {
        let new = list.skip(k - 1);
        let old_part = list.skip(k);
        assert(new.contains(x) <==> old_part.contains(x) || x == p) by {
            if new.contains(x) {
                let i = choose|i: int| 0 <= i < new.len() && new[i] == x;
                if i > 0 {
                    assert(old_part[i - 1] == x);
                }
            }
            if old_part.contains(x) {
                let i = choose|i: int| 0 <= i < old_part.len() && old_part[i] == x;
                assert(new[i + 1] == x);
            }
            assert(new[0] == p);
        }
        if k == 1 {
            assert(new =~= list);
            if worked_on(base, after, x) {
                let l = choose|l: int|
                    0 <= l < after.local && (#[trigger] base.retired[l]).contains(x);
                assert(base.retired[l].contains(x));
            }
            if worked_on(base, st, x) || x == p {
                if exists|l: int| 0 <= l < st.local && (#[trigger] base.retired[l]).contains(x) {
                    let l = choose|l: int|
                        0 <= l < st.local && (#[trigger] base.retired[l]).contains(x);
                    assert(base.retired[l].contains(x));
                } else {
                    assert(base.retired[st.local].contains(x));
                }
            }
        }
    }
}

/// One step keeps a reclamation that runs alone on its way.
proof fn lemma_step_underway(base: HazardView, st: ReclaimState, v: HazardView)
    requires
        underway(base, st, v),
        handed_right(base, st),
        base.slots.len() == base.retired.len(),
    ensures
        underway(base, reclaim_next(st, v).0, reclaim_next(st, v).1),
        handed_right(base, reclaim_next(st, v).0),
{
    let (after, w) = reclaim_next(st, v);
    let k = st.taken.len() as int;
    let list = base.retired[st.local];
    let keep = |p: u64| base.protects(p);
    match st.at {
        ReclaimAt::Done => {},
        ReclaimAt::Take => {
            if st.local < v.retired.len() {
                reveal(Seq::filter);
                assert(list.skip(list.len() as int) =~= Seq::empty());
                assert(base.kept(Seq::empty()) =~= Seq::empty());
                assert(list.take(list.len() as int) =~= list);
                if list.len() == 0 {
                    assert(list =~= Seq::empty());
                    assert(w.retired[st.local] =~= base.kept(list));
                }
                assert forall|x: u64| worked_on(base, after, x) <==> worked_on(base, st, x) by {
                    if worked_on(base, after, x) {
                        if !after.busy() {
                            let l = choose|l: int|
                                0 <= l < after.local && (#[trigger] base.retired[l]).contains(x);
                            assert(base.retired[l].contains(x));
                        }
                    }
                }
            } else {
                assert forall|x: u64| worked_on(base, after, x) <==> worked_on(base, st, x) by {}
            }
        },
        ReclaimAt::Look => {
            let p = st.in_hand();
            if p == 0 || st.scan_local >= v.slots.len() {
                assert(!base.protects(p));
                lemma_worked_on(base, st, after);
                lemma_one_more(base, list, k, p);
                assert forall|x: u64| #[trigger] after.handed.contains(x) <==> !base.protects(x)
                    && worked_on(base, after, x) by {
                    assert(st.handed.contains(x) <==> !base.protects(x) && worked_on(base, st, x));
                    lemma_push_contains(st.handed, p, x);
                }
                assert(st.taken.drop_last() =~= list.take(k - 1));
                if k == 1 {
                    assert(list.skip(0) =~= list);
                } else {
                    assert forall|l: int, s: int| !after.ahead(l, s) implies !#[trigger] base.publishes(
                    l, s, after.in_hand()) by {}
                }
            } else if st.scan_slot >= v.slots[st.scan_local].len() {
                assert forall|l: int, s: int| !after.ahead(l, s) implies !#[trigger] base.publishes(
                l, s, p) by {
                }
                assert forall|x: u64| worked_on(base, after, x) <==> worked_on(base, st, x) by {}
            } else if v.slots[st.scan_local][st.scan_slot] == p {
                assert(base.publishes(st.scan_local, st.scan_slot, p));
                assert forall|x: u64| worked_on(base, after, x) <==> worked_on(base, st, x) by {}
            } else {
                assert forall|l: int, s: int| !after.ahead(l, s) implies !#[trigger] base.publishes(
                l, s, p) by {
                    if st.ahead(l, s) {
                        assert(l == st.scan_local && s == st.scan_slot);
                    }
                }
                assert forall|x: u64| worked_on(base, after, x) <==> worked_on(base, st, x) by {}
            }
        },
        ReclaimAt::Back => {
            let p = st.in_hand();
            lemma_worked_on(base, st, after);
            lemma_one_more(base, list, k, p);
            assert(st.taken.drop_last() =~= list.take(k - 1));
            if k == 1 {
                assert(list.skip(0) =~= list);
            } else {
                assert forall|l: int, s: int| !after.ahead(l, s) implies !#[trigger] base.publishes(
                l, s, after.in_hand()) by {}
            }
        },
    }
}

/// What is kept of a list grows by the next pointer, if that is protected.
proof fn lemma_one_more(base: HazardView, list: Seq<u64>, k: int, p: u64)
    requires
        0 < k <= list.len(),
        p == list[k - 1],
    ensures
        base.kept(list.skip(k - 1)) == if base.protects(p) {
            base.kept(list.skip(k)).push(p)
        } else {
            base.kept(list.skip(k))
        },
{
    let keep = |q: u64| base.protects(q);
    assert(list.skip(k - 1) =~= seq![p] + list.skip(k));
    Seq::filter_distributes_over_add(seq![p], list.skip(k), keep);
    assert(seq![p].filter(keep) =~= if base.protects(p) {
        seq![p]
    } else {
        Seq::empty()
    }) by {
        reveal(Seq::filter);
        assert(seq![p].drop_last() =~= Seq::empty());
        assert(seq![p].drop_last().filter(keep) =~= Seq::empty());
    }
    assert(base.kept(list.skip(k - 1)) =~= if base.protects(p) {
        base.kept(list.skip(k)).push(p)
    } else {
        base.kept(list.skip(k))
    });
}

/// What a list contains after something has been put at its end.
proof fn lemma_push_contains(s: Seq<u64>, p: u64, x: u64)
    ensures
        s.push(p).contains(x) <==> s.contains(x) || x == p,
{
    if s.contains(x) {
        let i = choose|i: int| 0 <= i < s.len() && s[i] == x;
        assert(s.push(p)[i] == x);
    }
    assert(s.push(p)[s.len() as int] == p);
}

impl<T> HazardPointers<T> {
    /// Collects retired pointers that are safe to free into `reclaimed`.
    ///
    /// A retired pointer is returned only once no guard is protecting it. The
    /// caller takes ownership of every pointer in `reclaimed` and is
    /// responsible for freeing/dropping them.
    ///
    /// `reclaimed` is sorted and deduplicated before returning, so it is safe
    /// to reuse the same `Vec` across calls (passing it in non-empty is fine;
    /// existing entries are kept and included in the sort/dedup).
    pub fn reclaim(&mut self, reclaimed: &mut Vec<u64>)
        requires
            old(self).wf(),
        ensures
            final(self).wf(),
            final(self)@ == old(self)@.reclaimed(),
            order::increasing(final(reclaimed)@),
            forall|x: u64|
                final(reclaimed)@.contains(x) <==> old(reclaimed)@.contains(x) || old(self)@.waits(x)
                    && !old(self)@.protects(x),
    {
        let ghost base = self@;
        let mut run = Reclaim::start();
        proof {
            assert forall|x: u64| !worked_on(base, run@, x) by {}
            assert(handed_right(base, run@));
            assert(underway(base, run@, self@));
        }
        while run.at != ReclaimAt::Done
            invariant
                self.wf(),
                base.slots.len() == base.retired.len(),
                base.retired.len() == self.locals@.len(),
                run.fits(self.locals@.len()),
                underway(base, run@, self@),
                handed_right(base, run@),
            decreases
                    base.retired.len() - run.local,
                    if run.at == ReclaimAt::Take {
                        1int
                    } else {
                        0int
                    },
                    run.taken@.len(),
                    if run.at == ReclaimAt::Look {
                        1int
                    } else {
                        0int
                    },
                    base.slots.len() - run.scan_local,
                    base.slots[run.scan_local as int].len() - run.scan_slot,
        {
            proof {
                lemma_step_underway(base, run@, self@);
            }
            run.step(self);
        }
        let mut i: usize = 0;
        let ghost given = reclaimed@;
        while i < run.handed.len()
            invariant
                i <= run.handed@.len(),
                reclaimed@ == given + run.handed@.take(i as int),
            decreases run.handed@.len() - i,
        {
            reclaimed.push(run.handed[i]);
            i = i + 1;
            assert(reclaimed@ =~= given + run.handed@.take(i as int));
        }
        let sorted: Vec<u64> = order::sorted(reclaimed);
        let ghost all = reclaimed@;
        *reclaimed = order::without_repeats(&sorted);
        proof {
            assert(run.handed@.take(i as int) =~= run.handed@);
            assert(self@ =~= base.reclaimed()) by {
                assert(self@.retired =~= base.reclaimed().retired);
            }
            assert forall|x: u64| reclaimed@.contains(x) <==> given.contains(x) || base.waits(x)
                && !base.protects(x) by {
                assert(all.contains(x) <==> given.contains(x) || run.handed@.contains(x)) by {
                    if given.contains(x) {
                        let j = choose|j: int| 0 <= j < given.len() && given[j] == x;
                        assert(all[j] == x);
                    }
                    if run.handed@.contains(x) {
                        let j = choose|j: int| 0 <= j < run.handed@.len() && run.handed@[j] == x;
                        assert(all[given.len() + j] == x);
                    }
                }
                assert(reclaimed@.contains(x) <==> sorted@.contains(x));
                assert(sorted@.contains(x) <==> all.contains(x));
                assert(run@.handed.contains(x) <==> !base.protects(x) && worked_on(base, run@, x));
                assert(worked_on(base, run@, x) <==> base.waits(x)) by {
                    if base.waits(x) {
                        let l = choose|l: int|
                            0 <= l < base.retired.len() && (#[trigger] base.retired[l]).contains(x);
                        assert(base.retired[l].contains(x));
                    }
                }
            }
        }
    }
}

} // verus!

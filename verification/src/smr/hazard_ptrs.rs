//! Hazard pointers — safe memory reclamation for lock-free data structures.
//!
//! # Rationale
//!
//! Lock-free algorithms unlink objects from a structure (e.g. a node removed
//! from a stack) before they are sure that no other thread is still reading
//! them. Naively freeing the memory immediately is unsound as another thread
//! may be using the pointed memory.
//!
//! Hazard pointers solve this by "protecting" and "retiring" pointers, instead
//! of immediately releasing them. In practice, this means that retired pointers
//! go to a list and are only released when they are not protected anymore.
//!
//! For that to happen, [`HazardPointers::reclaim`] must be actively called. It
//! returns all pointers that are safe to be released, leaving the caller to
//! decide how to do this for each pointer.
//!
//! # Cannot protect a retired pointer
//!
//! A pointer can ONLY be retired if it is guaranteed that it is no longer
//! reachable by any other thread. Which means that `protect` should not be
//! called after `retire`.
//!
//! # Representation
//!
//! A pointer is its address; 0 is the null pointer. Handles and guards are
//! tokens: the registry that they belong to is handed to their methods.

use crate::order;
use core::marker::PhantomData;
use vstd::prelude::*;

verus! {

/// The state of a registry.
#[verifier::ext_equal]
pub struct HazardView {
    /// Which handles are free.
    pub available: Seq<bool>,
    /// For every handle the addresses that its slots publish.
    pub slots: Seq<Seq<u64>>,
    /// For every handle the addresses that wait for reclamation, the most
    /// recent one last.
    pub retired: Seq<Seq<u64>>,
}

impl HazardView {
    /// Whether slot `s` of handle `l` publishes `p`.
    pub open spec fn publishes(self, l: int, s: int, p: u64) -> bool {
        0 <= l < self.slots.len() && 0 <= s < self.slots[l].len() && self.slots[l][s] == p
    }

    /// Whether some slot publishes the pointer `p`; the null pointer is never
    /// protected.
    pub open spec fn protects(self, p: u64) -> bool {
        p != 0 && exists|l: int, s: int| #[trigger] self.publishes(l, s, p)
    }

    /// Whether `p` waits for reclamation.
    pub open spec fn waits(self, p: u64) -> bool {
        exists|l: int| 0 <= l < self.retired.len() && (#[trigger] self.retired[l]).contains(p)
    }

    /// The state with a slot changed.
    pub open spec fn with_slot(self, l: int, s: int, p: u64) -> HazardView {
        HazardView { slots: self.slots.update(l, self.slots[l].update(s, p)), ..self }
    }

    /// The state with a pointer more that waits for reclamation.
    pub open spec fn with_retired(self, l: int, p: u64) -> HazardView {
        HazardView { retired: self.retired.update(l, self.retired[l].push(p)), ..self }
    }

    /// The state after the handle `l` has been released: its slots publish
    /// nothing and it is free.
    pub open spec fn finished(self, l: int) -> HazardView {
        HazardView {
            available: self.available.update(l, true),
            slots: self.slots.update(l, Seq::new(self.slots[l].len(), |s: int| 0u64)),
            ..self
        }
    }

    /// Whether `l` is the first free handle.
    pub open spec fn is_first_available(self, l: int) -> bool {
        &&& 0 <= l < self.available.len()
        &&& self.available[l]
        &&& forall|k: int| 0 <= k < l ==> !#[trigger] self.available[k]
    }

    /// Whether `s` is the first slot of handle `l` that publishes nothing.
    pub open spec fn is_first_empty(self, l: int, s: int) -> bool {
        &&& 0 <= s < self.slots[l].len()
        &&& self.slots[l][s] == 0
        &&& forall|k: int| 0 <= k < s ==> #[trigger] self.slots[l][k] != 0
    }

    /// The pointers that remain in a list of retired ones after reclamation:
    /// those that are protected, the most recent one first.
    pub open spec fn kept(self, list: Seq<u64>) -> Seq<u64> {
        list.filter(|p: u64| self.protects(p)).reverse()
    }

    /// The state after a reclamation.
    pub open spec fn reclaimed(self) -> HazardView {
        HazardView {
            retired: Seq::new(self.retired.len(), |l: int| self.kept(self.retired[l])),
            ..self
        }
    }
}

/// A guard keeping a pointer protected.
///
/// While a `Guard` exists, the pointer it holds cannot be reclaimed by
/// [`HazardPointers::reclaim`]. Dispose of every guard explicitly with either
/// [`Guard::unprotect`] (release the protection) or [`Guard::retire`]
/// (release the protection *and* schedule the pointer for reclamation).
#[derive(Debug)]
pub struct Guard<T> {
    /// Handle that the slot belongs to.
    pub local: usize,
    /// Slot guarded by this guard.
    pub id: usize,
    /// The protected pointer, or null.
    pub ptr: u64,
    pub target: PhantomData<T>,
}

/// A handle through which pointers are protected and retired.
///
/// A `Local` must be released with [`Local::finish`].
#[derive(Debug)]
pub struct Local<T> {
    pub id: usize,
    pub target: PhantomData<T>,
}

/// What the registry keeps for one handle.
#[derive(Debug)]
pub struct HazardPointersLocal<T> {
    pub slots: Vec<u64>,
    /// The retirement list; its head is the last element.
    pub retired: Vec<u64>,
    pub target: PhantomData<T>,
}

impl<T> HazardPointersLocal<T> {
    /// What a slot publishes.
    pub fn get_slot(&self, id: usize) -> (r: Option<u64>)
        ensures
            r == if id < self.slots@.len() {
                Some(self.slots@[id as int])
            } else {
                None
            },
    {
        if id < self.slots.len() {
            Some(self.slots[id])
        } else {
            None
        }
    }

    /// Puts a pointer at the head of the retirement list.
    pub fn push_retire_node(&mut self, ptr: u64)
        ensures
            final(self).slots == old(self).slots,
            final(self).retired@ == old(self).retired@.push(ptr),
    {
        self.retired.push(ptr);
    }
}

/// A registry implementing *safe memory reclamation* for concurrent,
/// lock-free data structures.
///
/// Each thread acquires a [`Local`] handle via [`HazardPointers::local`],
/// protects pointers it is about to dereference with [`Local::protect`], and
/// retires pointers it has unlinked with [`Guard::retire`]. Retired pointers
/// that are no longer protected by any thread are handed back to the caller by
/// [`HazardPointers::reclaim`], which then owns and must free them.
#[derive(Debug)]
pub struct HazardPointers<T> {
    pub is_available: Vec<bool>,
    pub locals: Vec<HazardPointersLocal<T>>,
}

impl<T> View for HazardPointers<T> {
    type V = HazardView;

    open spec fn view(&self) -> HazardView {
        HazardView {
            available: self.is_available@,
            slots: Seq::new(self.locals@.len(), |l: int| self.locals@[l].slots@),
            retired: Seq::new(self.locals@.len(), |l: int| self.locals@[l].retired@),
        }
    }
}

impl<T> HazardPointers<T> {
    /// Every handle has an entry.
    pub open spec fn wf(&self) -> bool {
        self.is_available@.len() == self.locals@.len()
    }

    /// Whether `local` is a handle of this registry that has not been released.
    pub open spec fn holds(&self, local: Local<T>) -> bool {
        local.id < self@.available.len() && !self@.available[local.id as int]
    }

    /// Whether `guard` guards what it says: the slot publishes its pointer.
    pub open spec fn honours(&self, guard: Guard<T>) -> bool {
        guard.ptr != 0 ==> self@.publishes(guard.local as int, guard.id as int, guard.ptr)
    }

    /// Creates a registry sized for a known concurrency level.
    ///
    /// `locals` is the maximum number of [`Local`] handles at the same time;
    /// [`HazardPointers::local`] returns `None` once they are all in use.
    ///
    /// `ptrs` is the maximum number of pointers a single handle can protect
    /// at the same time; [`Local::protect`] returns `None` once a handle has
    /// used up all its slots.
    #[must_use]
    pub fn with_capacity(locals: usize, ptrs: usize) -> (r: HazardPointers<T>)
        ensures
            r.wf(),
            r@ == (HazardView {
                available: Seq::new(locals as nat, |l: int| true),
                slots: Seq::new(locals as nat, |l: int| Seq::new(ptrs as nat, |s: int| 0u64)),
                retired: Seq::new(locals as nat, |l: int| Seq::empty()),
            }),
    {
        let mut is_available: Vec<bool> = Vec::new();
        let mut table: Vec<HazardPointersLocal<T>> = Vec::new();
        let mut i: usize = 0;
        while i < locals
            invariant
                i <= locals,
                is_available@.len() == i,
                table@.len() == i,
                forall|l: int| 0 <= l < i ==> #[trigger] is_available@[l],
                forall|l: int| 0 <= l < i ==> (#[trigger] table@[l]).retired@.len() == 0,
                forall|l: int|
                    0 <= l < i ==> (#[trigger] table@[l]).slots@ == Seq::new(
                        ptrs as nat,
                        |s: int| 0u64,
                    ),
            decreases locals - i,
        {
            let mut slots: Vec<u64> = Vec::new();
            slots.resize(ptrs, 0u64);
            assert(slots@ =~= Seq::new(ptrs as nat, |s: int| 0u64));
            is_available.push(true);
            table.push(HazardPointersLocal { slots, retired: Vec::new(), target: PhantomData });
            i = i + 1;
        }
        let r = HazardPointers { is_available, locals: table };
        proof {
            assert(r@.available =~= Seq::new(locals as nat, |l: int| true));
            assert(r@.slots =~= Seq::new(
                locals as nat,
                |l: int| Seq::new(ptrs as nat, |s: int| 0u64),
            ));
            assert(r@.retired =~= Seq::new(locals as nat, |l: int| Seq::<u64>::empty())) by {
                assert forall|l: int| 0 <= l < locals implies r@.retired[l] == Seq::<u64>::empty() by {
                    assert(table@[l].retired@ =~= Seq::<u64>::empty());
                }
            }
        }
        r
    }

    /// Acquires a handle for protecting and retiring pointers.
    ///
    /// Returns `None` if all handles (see [`HazardPointers::with_capacity`])
    /// are currently held. The returned [`Local`] must be released with
    /// [`Local::finish`].
    #[must_use]
    pub fn local(&mut self) -> (r: Option<Local<T>>)
        requires
            old(self).wf(),
        ensures
            final(self).wf(),
            r is None <==> forall|l: int|
                0 <= l < old(self)@.available.len() ==> !#[trigger] old(self)@.available[l],
            r is None ==> final(self)@ == old(self)@,
            r matches Some(local) ==> {
                &&& old(self)@.is_first_available(local.id as int)
                &&& final(self).holds(local)
                &&& final(self)@ == (HazardView {
                    available: old(self)@.available.update(local.id as int, false),
                    ..old(self)@
                })
            },
    {
        let mut id: usize = 0;
        while id < self.locals.len()
            invariant
                self.wf(),
                *self == *old(self),
                id <= self.locals@.len(),
                forall|l: int| 0 <= l < id ==> !#[trigger] self.is_available@[l],
            decreases self.locals@.len() - id,
        {
            if self.is_available[id] {
                self.is_available.set(id, false);
                assert(self@.slots =~= old(self)@.slots);
                assert(self@.retired =~= old(self)@.retired);
                return Some(Local { id, target: PhantomData });
            }
            id = id + 1;
        }
        None
    }

    /// Whether some slot publishes `ptr`.
    pub fn is_protected(&self, ptr: u64) -> (r: bool)
        ensures
            r == self@.protects(ptr),
    {
        if ptr == 0 {
            return false;
        }
        let mut l: usize = 0;
        while l < self.locals.len()
            invariant
                ptr != 0,
                l <= self.locals@.len(),
                forall|k: int, s: int| 0 <= k < l ==> !#[trigger] self@.publishes(k, s, ptr),
            decreases self.locals@.len() - l,
        {
            let mut s: usize = 0;
            while s < self.locals[l].slots.len()
                invariant
                    ptr != 0,
                    l < self.locals@.len(),
                    s <= self.locals@[l as int].slots@.len(),
                    forall|k: int| 0 <= k < s ==> !#[trigger] self@.publishes(l as int, k, ptr),
                decreases self.locals@[l as int].slots@.len() - s,
            {
                if self.locals[l].slots[s] == ptr {
                    assert(self@.publishes(l as int, s as int, ptr));
                    return true;
                }
                s = s + 1;
            }
            l = l + 1;
        }
        false
    }
}

impl<T> Local<T> {
    fn finish_by_ref(&self, hp: &mut HazardPointers<T>)
        requires
            old(hp).wf(),
            old(hp).holds(*self),
        ensures
            final(hp).wf(),
            final(hp)@ == old(hp)@.finished(self.id as int),
    {
        let ghost l = self.id as int;
        let n: usize = hp.locals[self.id].slots.len();
        let mut s: usize = 0;
        while s < n
            invariant
                l == self.id,
                l < hp.locals@.len(),
                hp.locals@.len() == old(hp).locals@.len(),
                hp.is_available == old(hp).is_available,
                hp@.retired == old(hp)@.retired,
                n == old(hp)@.slots[l].len(),
                hp@.slots[l].len() == n,
                s <= n,
                forall|k: int|
                    0 <= k < hp@.slots.len() && k != l ==> hp@.slots[k] == #[trigger] old(
                        hp,
                    )@.slots[k],
                forall|k: int| 0 <= k < s ==> #[trigger] hp@.slots[l][k] == 0,
            decreases n - s,
        {
            hp.locals[self.id].slots.set(s, 0);
            assert(hp@.retired =~= old(hp)@.retired);
            s = s + 1;
        }
        hp.is_available.set(self.id, true);
        proof {
            let want = old(hp)@.finished(l);
            assert(hp@.slots[l] =~= want.slots[l]);
            assert(hp@.slots =~= want.slots);
            assert(hp@.retired =~= want.retired);
        }
    }

    /// Releases this handle.
    ///
    /// Any pointers still protected through this handle are unprotected as a
    /// fallback. The preferred pattern is to release each guard individually
    /// with [`Guard::unprotect`] or [`Guard::retire`].
    pub fn finish(self, hp: &mut HazardPointers<T>)
        requires
            old(hp).wf(),
            old(hp).holds(self),
        ensures
            final(hp).wf(),
            final(hp)@ == old(hp)@.finished(self.id as int),
    {
        self.finish_by_ref(hp);
    }

    /// Publishes `ptr` so it cannot be reclaimed while the returned [`Guard`]
    /// exists.
    ///
    /// Returns `None` if every protection slot for this handle is already in
    /// use. Protecting a null pointer succeeds and returns a guard that holds
    /// null (which never needs releasing and retires as a no-op).
    pub fn protect(&self, hp: &mut HazardPointers<T>, ptr: u64) -> (r: Option<Guard<T>>)
        requires
            old(hp).wf(),
            old(hp).holds(*self),
        ensures
            final(hp).wf(),
            final(hp).is_available == old(hp).is_available,
            r is None <==> ptr != 0 && forall|s: int|
                0 <= s < old(hp)@.slots[self.id as int].len() ==> #[trigger] old(
                    hp,
                )@.slots[self.id as int][s] != 0,
            r is None ==> final(hp)@ == old(hp)@,
            r matches Some(guard) ==> {
                &&& guard.local == self.id
                &&& guard.ptr == ptr
                &&& final(hp).honours(guard)
                &&& if ptr == 0 {
                    guard.id == 0 && final(hp)@ == old(hp)@
                } else {
                    &&& old(hp)@.is_first_empty(self.id as int, guard.id as int)
                    &&& final(hp)@ == old(hp)@.with_slot(self.id as int, guard.id as int, ptr)
                }
            },
    {
        if ptr == 0 {
            return Some(Guard { local: self.id, id: 0, ptr, target: PhantomData });
        }
        let ghost l = self.id as int;
        let mut id: usize = 0;
        while id < hp.locals[self.id].slots.len()
            invariant
                ptr != 0,
                l == self.id,
                hp.wf(),
                *hp == *old(hp),
                l < hp.locals@.len(),
                id <= hp.locals@[l].slots@.len(),
                forall|s: int| 0 <= s < id ==> #[trigger] hp@.slots[l][s] != 0,
            decreases hp.locals@[l].slots@.len() - id,
        {
            if hp.locals[self.id].slots[id] == 0 {
                hp.locals[self.id].slots.set(id, ptr);
                proof {
                    assert(old(hp)@.slots[l][id as int] == 0);
                    let want = old(hp)@.with_slot(l, id as int, ptr);
                    assert(hp@.slots =~= want.slots);
                    assert(hp@.retired =~= want.retired);
                    assert(hp@.publishes(l, id as int, ptr));
                }
                return Some(Guard { local: self.id, id, ptr, target: PhantomData });
            }
            assert(hp@.slots[l][id as int] != 0);
            id = id + 1;
        }
        None
    }

    /// What a slot of this handle publishes.
    pub fn get_slot(&self, hp: &HazardPointers<T>, id: usize) -> (r: Option<u64>)
        requires
            hp.wf(),
            hp.holds(*self),
        ensures
            r == if id < hp@.slots[self.id as int].len() {
                Some(hp@.slots[self.id as int][id as int])
            } else {
                None
            },
    {
        hp.locals[self.id].get_slot(id)
    }

    /// The pointer that this handle retired most recently and that still waits
    /// for reclamation.
    pub fn retire_head(&self, hp: &HazardPointers<T>) -> (r: Option<u64>)
        requires
            hp.wf(),
            hp.holds(*self),
        ensures
            r == if hp@.retired[self.id as int].len() > 0 {
                Some(hp@.retired[self.id as int].last())
            } else {
                None
            },
    {
        let n: usize = hp.locals[self.id].retired.len();
        if n > 0 {
            Some(hp.locals[self.id].retired[n - 1])
        } else {
            None
        }
    }
}

impl<T> Guard<T> {
    fn unprotect_by_ref(&self, hp: &mut HazardPointers<T>)
        requires
            old(hp).wf(),
            self.ptr != 0,
            old(hp).honours(*self),
        ensures
            final(hp).wf(),
            final(hp)@ == old(hp)@.with_slot(self.local as int, self.id as int, 0),
            final(hp).is_available == old(hp).is_available,
    {
        hp.locals[self.local].slots.set(self.id, 0);
        proof {
            let want = old(hp)@.with_slot(self.local as int, self.id as int, 0);
            assert(hp@.slots =~= want.slots);
            assert(hp@.retired =~= want.retired);
        }
    }

    /// Releases the protection and consumes the guard.
    ///
    /// After this returns, the pointer is no longer kept alive and may be
    /// reclaimed by a future [`HazardPointers::reclaim`].
    pub fn unprotect(self, hp: &mut HazardPointers<T>)
        requires
            old(hp).wf(),
            old(hp).honours(self),
        ensures
            final(hp).wf(),
            final(hp)@ == if self.ptr == 0 {
                old(hp)@
            } else {
                old(hp)@.with_slot(self.local as int, self.id as int, 0)
            },
            final(hp).is_available == old(hp).is_available,
    {
        if self.ptr != 0 {
            self.unprotect_by_ref(hp);
        }
    }

    /// Releases the protection and schedules the pointer for reclamation.
    ///
    /// The pointer becomes eligible for [`HazardPointers::reclaim`] as soon as
    /// no other guard is protecting it.
    ///
    /// Returns `true` if the pointer was scheduled, or `false` if this guard
    /// held a null pointer (a no-op).
    ///
    /// A pointer may ONLY be retired once it is guaranteed to be unreachable to
    /// every other thread: after this call, [`Local::protect`] must not be
    /// called on this pointer again.
    #[must_use]
    pub fn retire(self, hp: &mut HazardPointers<T>) -> (r: bool)
        requires
            old(hp).wf(),
            old(hp).honours(self),
        ensures
            final(hp).wf(),
            r == (self.ptr != 0),
            final(hp)@ == if self.ptr == 0 {
                old(hp)@
            } else {
                old(hp)@.with_retired(self.local as int, self.ptr).with_slot(
                    self.local as int,
                    self.id as int,
                    0,
                )
            },
            final(hp).is_available == old(hp).is_available,
    {
        if self.ptr == 0 {
            return false;
        }
        hp.locals[self.local].push_retire_node(self.ptr);
        proof {
            let want = old(hp)@.with_retired(self.local as int, self.ptr);
            assert(hp@.slots =~= want.slots);
            assert(hp@.retired =~= want.retired);
            assert(hp@.publishes(self.local as int, self.id as int, self.ptr));
        }
        self.unprotect_by_ref(hp);
        true
    }

    /// Gives up a guard that was neither unprotected nor retired, which is a
    /// mistake: the protection is released all the same, and the result says
    /// whether there was one.
    #[must_use]
    pub fn abandon(self, hp: &mut HazardPointers<T>) -> (armed: bool)
        requires
            old(hp).wf(),
            old(hp).honours(self),
        ensures
            final(hp).wf(),
            armed == (self.ptr != 0),
            final(hp)@ == if self.ptr == 0 {
                old(hp)@
            } else {
                old(hp)@.with_slot(self.local as int, self.id as int, 0)
            },
            final(hp).is_available == old(hp).is_available,
    {
        let armed: bool = self.ptr != 0;
        self.unprotect(hp);
        armed
    }
}

} // verus!

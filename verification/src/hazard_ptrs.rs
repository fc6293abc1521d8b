//! Hazard pointers over the registry of [`crate::smr::hazard_ptrs`], for
//! callers that never handle null pointers: protecting null is refused, so
//! every guard holds a pointer and retiring it always schedules it.

use crate::order;
use crate::smr::hazard_ptrs as registry;
use crate::smr::hazard_ptrs::HazardView;
use vstd::prelude::*;

verus! {

/// A guard guarding a protected pointer.
///
/// Consume it with [`Guard::unprotect`] or [`Guard::retire`].
#[derive(Debug)]
pub struct Guard<T> {
    pub guard: registry::Guard<T>,
}

/// Gives access to protecting pointers. `Local` must be consumed by
/// [`Local::finish`] to make it clear when all pointers are unprotected.
#[derive(Debug)]
pub struct Local<T> {
    pub local: registry::Local<T>,
}

/// Hazard pointers is a technique for *safe memory reclamation* in
/// concurrent, lock-free data structures.
#[derive(Debug)]
pub struct HazardPointers<T> {
    pub registry: registry::HazardPointers<T>,
}

impl<T> View for HazardPointers<T> {
    type V = HazardView;

    open spec fn view(&self) -> HazardView {
        self.registry@
    }
}

impl<T> HazardPointers<T> {
    /// Every handle has an entry.
    pub open spec fn wf(&self) -> bool {
        self.registry.wf()
    }

    /// Whether `local` is a handle of this registry that has not been released.
    pub open spec fn holds(&self, local: Local<T>) -> bool {
        self.registry.holds(local.local)
    }

    /// Whether `guard` guards a pointer, and its slot publishes it.
    pub open spec fn honours(&self, guard: Guard<T>) -> bool {
        guard.guard.ptr != 0 && self.registry.honours(guard.guard)
    }

    /// Creates `locals` handles, each having `ptrs` slots for pointers to be
    /// protected.
    #[must_use]
    pub fn with_capacity(locals: usize, ptrs: usize) -> (r: HazardPointers<T>)
        ensures
            r.wf(),
            r@ == (HazardView {
                available: Seq::new(locals as nat, |l: int| true),
                slots: Seq::new(locals as nat, |l: int| Seq::new(ptrs as nat, |s: int| 0u64)),
                retired: Seq::new(locals as nat, |l: int| Seq::empty()),
            }),
    {
        HazardPointers { registry: registry::HazardPointers::with_capacity(locals, ptrs) }
    }

    /// Gives access to protecting pointers: the first free handle, or `None` if
    /// all are held.
    #[must_use]
    pub fn local(&mut self) -> (r: Option<Local<T>>)
        requires
            old(self).wf(),
        ensures
            final(self).wf(),
            r is None <==> forall|l: int|
                0 <= l < old(self)@.available.len() ==> !#[trigger] old(self)@.available[l],
            r is None ==> final(self)@ == old(self)@,
            r matches Some(local) ==> {
                &&& old(self)@.is_first_available(local.local.id as int)
                &&& final(self).holds(local)
                &&& final(self)@ == (HazardView {
                    available: old(self)@.available.update(local.local.id as int, false),
                    ..old(self)@
                })
            },
    {
        let ghost before = self@;
        match self.registry.local() {
            None => {
                assert forall|l: int| 0 <= l < before.available.len() implies !#[trigger] before.available[l] by {}
                None
            },
            Some(local) => {
                assert(before.available[local.id as int]);
                Some(Local { local })
            },
        }
    }

    /// Whether some slot publishes `ptr`.
    pub fn is_protected(&self, ptr: u64) -> (r: bool)
        ensures
            r == self@.protects(ptr),
    {
        self.registry.is_protected(ptr)
    }

    /// Pushes into `reclaimed` every retired pointer which is not being
    /// protected. The caller must decide what to do with them.
    ///
    /// `reclaimed` will be sorted and deduped, so ideally it should be empty.
    /// To avoid allocations, one can also reuse the same `Vec` multiple times.
    pub fn reclaim(&mut self, reclaimed: &mut Vec<u64>)
        requires
            old(self).wf(),
        ensures
            final(self).wf(),
            final(self)@ == old(self)@.reclaimed(),
            order::increasing(final(reclaimed)@),
            forall|x: u64|
                final(reclaimed)@.contains(x) <==> old(reclaimed)@.contains(x) || old(self)@.waits(x)
                    && !old(self)@.protects(x),
    {
        self.registry.reclaim(reclaimed);
    }
}

impl<T> Local<T> {
    /// Consumes the handle and unprotects all pointers as a fallback. But the
    /// correct approach is to unprotect each pointer individually.
    pub fn finish(self, hp: &mut HazardPointers<T>)
        requires
            old(hp).wf(),
            old(hp).holds(self),
        ensures
            final(hp).wf(),
            final(hp)@ == old(hp)@.finished(self.local.id as int),
    {
        self.local.finish(&mut hp.registry);
    }

    /// Protects `ptr` whilst its [`Guard`] exists.
    ///
    /// Returns `None` for the null pointer, and if every slot of this handle is
    /// in use.
    pub fn protect(&self, hp: &mut HazardPointers<T>, ptr: u64) -> (r: Option<Guard<T>>)
        requires
            old(hp).wf(),
            old(hp).holds(*self),
        ensures
            final(hp).wf(),
            final(hp)@.available == old(hp)@.available,
            r is None <==> ptr == 0 || forall|s: int|
                0 <= s < old(hp)@.slots[self.local.id as int].len() ==> #[trigger] old(
                    hp,
                )@.slots[self.local.id as int][s] != 0,
            r is None ==> final(hp)@ == old(hp)@,
            r matches Some(guard) ==> {
                &&& guard.guard.local == self.local.id
                &&& guard.guard.ptr == ptr
                &&& final(hp).honours(guard)
                &&& old(hp)@.is_first_empty(self.local.id as int, guard.guard.id as int)
                &&& final(hp)@ == old(hp)@.with_slot(
                    self.local.id as int,
                    guard.guard.id as int,
                    ptr,
                )
            },
    {
        if ptr == 0 {
            return None;
        }
        match self.local.protect(&mut hp.registry, ptr) {
            None => None,
            Some(guard) => Some(Guard { guard }),
        }
    }

    /// What a slot of this handle publishes.
    pub fn get_slot(&self, hp: &HazardPointers<T>, id: usize) -> (r: Option<u64>)
        requires
            hp.wf(),
            hp.holds(*self),
        ensures
            r == if id < hp@.slots[self.local.id as int].len() {
                Some(hp@.slots[self.local.id as int][id as int])
            } else {
                None
            },
    {
        self.local.get_slot(&hp.registry, id)
    }

    /// The pointer that this handle retired most recently and that still waits
    /// for reclamation.
    pub fn retire_head(&self, hp: &HazardPointers<T>) -> (r: Option<u64>)
        requires
            hp.wf(),
            hp.holds(*self),
        ensures
            r == if hp@.retired[self.local.id as int].len() > 0 {
                Some(hp@.retired[self.local.id as int].last())
            } else {
                None
            },
    {
        self.local.retire_head(&hp.registry)
    }
}

impl<T> Guard<T> {
    /// Consumes the guard, unprotecting its pointer.
    pub fn unprotect(self, hp: &mut HazardPointers<T>)
        requires
            old(hp).wf(),
            old(hp).honours(self),
        ensures
            final(hp).wf(),
            final(hp)@ == old(hp)@.with_slot(self.guard.local as int, self.guard.id as int, 0),
    {
        self.guard.unprotect(&mut hp.registry);
    }

    /// Consumes the guard, retiring its pointer.
    ///
    /// A pointer can ONLY be retired if it is guaranteed that it is no longer
    /// reachable by any other thread. Which means that [`Local::protect`]
    /// should not be called after [`Guard::retire`].
    pub fn retire(self, hp: &mut HazardPointers<T>)
        requires
            old(hp).wf(),
            old(hp).honours(self),
        ensures
            final(hp).wf(),
            final(hp)@ == old(hp)@.with_retired(
                self.guard.local as int,
                self.guard.ptr,
            ).with_slot(self.guard.local as int, self.guard.id as int, 0),
    {
        let _ = self.guard.retire(&mut hp.registry);
    }

    /// Gives up a guard that was neither unprotected nor retired, which is a
    /// mistake: the protection is released all the same.
    pub fn abandon(self, hp: &mut HazardPointers<T>)
        requires
            old(hp).wf(),
            old(hp).honours(self),
        ensures
            final(hp).wf(),
            final(hp)@ == old(hp)@.with_slot(self.guard.local as int, self.guard.id as int, 0),
    {
        let _ = self.guard.abandon(&mut hp.registry);
    }
}

} // verus!

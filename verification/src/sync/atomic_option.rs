//! A cell with room for one value.

use super::spinlock::Spinlock;
use vstd::prelude::*;

verus! {

/// A single-slot cell holding `Option<T>` under exclusive access.
#[derive(Debug)]
pub struct AtomicOption<T> {
    pub lock: Spinlock,
    pub data: Option<T>,
}

impl<T> View for AtomicOption<T> {
    type V = Option<T>;

    open spec fn view(&self) -> Option<T> {
        self.data
    }
}

impl<T> Default for AtomicOption<T> {
    /// An empty cell.
    fn default() -> (r: Self)
        ensures
            r.wf(),
            r@ is None,
    {
        AtomicOption { lock: Spinlock::default(), data: None }
    }
}

impl<T> AtomicOption<T> {
    /// Nobody is inside.
    pub open spec fn wf(&self) -> bool {
        self.lock.free()
    }

    /// Replace the current value with `item` and return the previous value.
    pub fn replace(&mut self, item: T) -> (r: Option<T>)
        requires
            old(self).wf(),
        ensures
            final(self).wf(),
            r == old(self)@,
            final(self)@ == Some(item),
    {
        let guard = self.lock.lock();
        let previous: Option<T> = self.data.take();
        self.data = Some(item);
        guard.release(&mut self.lock);
        previous
    }

    /// Return the current value and leave `None` in its place.
    pub fn take(&mut self) -> (r: Option<T>)
        requires
            old(self).wf(),
        ensures
            final(self).wf(),
            r == old(self)@,
            final(self)@ is None,
    {
        let guard = self.lock.lock();
        let previous: Option<T> = self.data.take();
        guard.release(&mut self.lock);
        previous
    }
}

} // verus!

//! Access to a component's state that notes whether it was changed.
use vstd::prelude::*;

verus! {

/// Mutable state accessor. It wraps the mutable reference so that whoever handed it out knows
/// whether the state was mutated and the view should be refreshed.
pub struct DetectMut<'a, T> {
    /// The state.
    pub inner: &'a mut T,
    /// Set when the state may have been changed.
    pub dirty: &'a mut bool,
}

impl<'a, T> DetectMut<'a, T> {
    /// The state seen through the accessor.
    pub closed spec fn state(self) -> T {
        *self.inner
    }

    /// Whether the accessor has noted a change.
    pub closed spec fn is_dirty(self) -> bool {
        *self.dirty
    }

    /// An accessor for `inner` that notes changes in `dirty`. Once the accessor is done with,
    /// the caller's state and flag are those the accessor left.
    pub fn new(inner: &'a mut T, dirty: &'a mut bool) -> (r: Self)
        ensures
            r.state() == *old(inner),
            r.is_dirty() == *old(dirty),
            *final(inner) == *final(r.inner),
            *final(dirty) == *final(r.dirty),
    {
        DetectMut { inner, dirty }
    }

    /// Force the ui to be rebuilt.
    pub fn force_update(&mut self)
        ensures
            final(self).is_dirty(),
            final(self).state() == old(self).state(),
            *final(final(self).inner) == *final(old(self).inner),
            *final(final(self).dirty) == *final(old(self).dirty),
    {
        *self.dirty = true;
    }

    /// Reads the state; this is no change.
    pub fn get(&self) -> (r: &T)
        ensures
            *r == self.state(),
    {
        &*self.inner
    }

    /// Writes to the state: the change is noted, whether or not a write follows.
    pub fn get_mut(&mut self) -> (r: &mut T)
        ensures
            *r == old(self).state(),
            final(self).is_dirty(),
            final(self).state() == *final(r),
            *final(final(self).inner) == *final(old(self).inner),
            *final(final(self).dirty) == *final(old(self).dirty),
    {
        *self.dirty = true;
        &mut *self.inner
    }
}

} // verus!

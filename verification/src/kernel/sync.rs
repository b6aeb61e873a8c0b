//! A cell that is filled at most once.

use vstd::prelude::*;

verus! {

/// A cell that starts empty and keeps the first value put into it.
pub struct Once<T> {
    inner: Option<T>,
}

impl<T> Once<T> {
    /// What the cell holds.
    pub closed spec fn spec_value(&self) -> Option<T> {
        self.inner
    }

    /// An empty cell.
    pub fn new() -> (r: Self)
        ensures
            r.spec_value() is None,
    {
        Once { inner: None }
    }

    /// Fills an empty cell with what `f` gives, and hands out what the cell
    /// holds. On a filled cell `f` is not called and the cell stays as it is.
    pub fn call_once<F>(&mut self, f: F) -> (r: &T) where F: FnOnce() -> T
        requires
            old(self).spec_value() is None ==> f.requires(()),
        ensures
            final(self).spec_value() == Some(*r),
            old(self).spec_value() is Some ==> final(self).spec_value() == old(self).spec_value(),
            old(self).spec_value() is None ==> f.ensures((), *r),
    {
        if self.inner.is_none() {
            self.inner = Some(f());
        }
        self.inner.as_ref().unwrap()
    }

    /// What the cell holds, if it was filled.
    pub fn get(&self) -> (r: Option<&T>)
        ensures
            r is Some == self.spec_value() is Some,
            r matches Some(v) ==> self.spec_value() == Some(*v),
    {
        self.inner.as_ref()
    }
}

impl<T> Default for Once<T> {
    fn default() -> (r: Self)
        ensures
            r.spec_value() is None,
    {
        Self::new()
    }
}

} // verus!

use vstd::prelude::*;

verus! {

/// A decoded node owned by the editing session. Reads go through `borrow`,
/// edits through `borrow_mut`, both on the owned value itself.
pub struct RcUi<T> {
    inner: T,
}

impl<T> RcUi<T> {
    /// The value held.
    pub closed spec fn value(&self) -> T {
        self.inner
    }

    pub fn new(inner: T) -> (r: RcUi<T>)
        ensures
            r.value() == inner,
    {
        RcUi { inner }
    }

    pub fn borrow(&self) -> (r: &T)
        ensures
            *r == self.value(),
    {
        &self.inner
    }

    pub fn borrow_mut(&mut self) -> (r: &mut T)
        ensures
            *r == old(self).value(),
            final(self).value() == *final(r),
    {
        &mut self.inner
    }

    /// Gives the value back.
    pub fn into_inner(self) -> (r: T)
        ensures
            r == self.value(),
    {
        self.inner
    }
}

} // verus!

//! A plain wrapper that marks a value as safe to move across threads.
//! The library only tracks the value; the sharing claim itself is the
//! caller's, made where the wrapper is used.
use vstd::prelude::*;

verus! {

pub struct ThreadSafe<T> {
    pub inner: T,
}

impl<T> ThreadSafe<T> {
    pub fn new(inner: T) -> (r: ThreadSafe<T>)
        ensures
            r.inner == inner,
    {
        Self { inner }
    }

    pub fn as_ref(&self) -> (r: &T)
        ensures
            *r == self.inner,
    {
        &self.inner
    }

    pub fn as_mut(&mut self) -> (r: &mut T)
        ensures
            *r == old(self).inner,
            final(self).inner == *final(r),
    {
        &mut self.inner
    }

    pub fn into_inner(self) -> (r: T)
        ensures
            r == self.inner,
    {
        self.inner
    }
}

} // verus!

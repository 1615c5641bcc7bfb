//! A value with a fallback: reads yield the stored value when one was set
//! and the default otherwise.
use vstd::prelude::*;

verus! {

pub struct OrDefault<T> {
    pub inner: Option<T>,
    pub def: T,
}

impl<T> OrDefault<T> {
    /// The value a read currently yields.
    pub open spec fn current(&self) -> T {
        match self.inner {
            Some(t) => t,
            None => self.def,
        }
    }

    /// Whether a value has been set.
    pub open spec fn is_set(&self) -> bool {
        self.inner is Some
    }

    pub fn new(t: T, def: T) -> (r: OrDefault<T>)
        ensures
            r.current() == t,
            r.is_set(),
            r.def == def,
    {
        Self { inner: Some(t), def }
    }

    pub fn uninit(def: T) -> (r: OrDefault<T>)
        ensures
            r.current() == def,
            !r.is_set(),
    {
        Self { inner: None, def }
    }

    pub fn take(self) -> (r: T)
        ensures
            r == self.current(),
    {
        match self.inner {
            Some(t) => t,
            None => self.def,
        }
    }

    pub fn get(&self) -> (r: &T)
        ensures
            *r == self.current(),
    {
        match &self.inner {
            Some(t) => t,
            None => &self.def,
        }
    }

    pub fn get_mut(&mut self) -> (r: &mut T)
        ensures
            *r == old(self).current(),
            final(self).current() == *final(r),
            final(self).is_set() == old(self).is_set(),
    {
        match &mut self.inner {
            Some(t) => t,
            None => &mut self.def,
        }
    }

    pub fn set(&mut self, t: T)
        ensures
            final(self).current() == t,
            final(self).is_set(),
            final(self).def == old(self).def,
    {
        self.inner = Some(t);
    }
}

impl<T: Default> OrDefault<T> {
    pub fn new_default(t: T) -> (r: OrDefault<T>)
        ensures
            r.current() == t,
            r.is_set(),
    {
        Self { inner: Some(t), def: T::default() }
    }

    pub fn uninit_default() -> (r: OrDefault<T>)
        ensures
            !r.is_set(),
    {
        Self { inner: None, def: T::default() }
    }
}

} // verus!

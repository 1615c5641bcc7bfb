//! A slot whose value can be rebuilt in place by a function that consumes
//! the old value and returns the new one.
use vstd::prelude::*;

verus! {

pub struct Remake<T> {
    pub item: Option<T>,
}

impl<T> Remake<T> {
    /// The slot always holds a value; every constructor establishes this
    /// and every method keeps it.
    pub open spec fn wf(&self) -> bool {
        self.item is Some
    }

    /// The held value.
    pub open spec fn current(&self) -> T
        recommends
            self.wf(),
    {
        self.item->Some_0
    }

    pub fn new(item: T) -> (r: Remake<T>)
        ensures
            r.wf(),
            r.current() == item,
    {
        Remake { item: Some(item) }
    }

    pub fn get(&self) -> (r: &T)
        requires
            self.wf(),
        ensures
            *r == self.current(),
    {
        match &self.item {
            Some(t) => t,
            None => unreached(),
        }
    }

    pub fn get_mut(&mut self) -> (r: &mut T)
        requires
            old(self).wf(),
        ensures
            *r == old(self).current(),
            final(self).wf(),
            final(self).current() == *final(r),
    {
        match &mut self.item {
            Some(t) => t,
            None => unreached(),
        }
    }

    pub fn take(self) -> (r: T)
        requires
            self.wf(),
        ensures
            r == self.current(),
    {
        match self.item {
            Some(t) => t,
            None => unreached(),
        }
    }

    /// Rebuilds the value: hands the old one to `function` and stores what
    /// it returns.
    pub fn replace<F: FnOnce(T) -> T>(&mut self, function: F)
        requires
            old(self).wf(),
            function.requires((old(self).current(),)),
        ensures
            final(self).wf(),
            function.ensures((old(self).current(),), final(self).current()),
    {
        let old_item = match self.item.take() {
            Some(t) => t,
            None => unreached(),
        };
        self.item = Some(function(old_item));
    }
}

} // verus!

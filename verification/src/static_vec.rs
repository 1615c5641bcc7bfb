//! A vector of fixed length whose slots start empty and can be filled one
//! by one.
use vstd::prelude::*;

verus! {

pub struct StaticVec<T> {
    pub vec: Vec<Option<T>>,
    pub len: usize,
}

impl<T> StaticVec<T> {
    /// The stored length always matches the slot count.
    pub open spec fn wf(&self) -> bool {
        self.len == self.vec@.len()
    }

    /// The slots as a sequence.
    pub open spec fn slots(&self) -> Seq<Option<T>> {
        self.vec@
    }

    /// A vector of `len` empty slots.
    pub fn new(len: usize) -> (r: StaticVec<T>)
        ensures
            r.wf(),
            r.slots().len() == len,
            forall|i: int| 0 <= i < len ==> r.slots()[i] is None,
    {
        let mut vec: Vec<Option<T>> = Vec::new();
        let mut i: usize = 0;
        while i < len
            invariant
                i <= len,
                vec@.len() == i,
                forall|j: int| 0 <= j < i ==> vec@[j] is None,
            decreases len - i,
        {
            vec.push(None);
            i = i + 1;
        }
        StaticVec { vec, len }
    }

    pub fn len(&self) -> (r: usize)
        requires
            self.wf(),
        ensures
            r == self.slots().len(),
    {
        self.len
    }

    pub fn is_empty(&self) -> (r: bool)
        requires
            self.wf(),
        ensures
            r == (self.slots().len() == 0),
    {
        self.len == 0
    }

    pub fn get(&self, index: usize) -> (r: Option<&T>)
        requires
            self.wf(),
        ensures
            match r {
                Some(t) => index < self.slots().len() && self.slots()[index as int] == Some(*t),
                None => index >= self.slots().len() || self.slots()[index as int] is None,
            },
    {
        if index < self.vec.len() {
            match &self.vec[index] {
                Some(t) => Some(t),
                None => None,
            }
        } else {
            None
        }
    }

    /// Fills a slot. Indexing past the end is a caller error, as it is for
    /// a plain vector.
    pub fn set(&mut self, index: usize, value: T)
        requires
            old(self).wf(),
            index < old(self).slots().len(),
        ensures
            final(self).wf(),
            final(self).slots() == old(self).slots().update(index as int, Some(value)),
    {
        self.vec.set(index, Some(value));
    }
}

impl<T: Default + Clone> StaticVec<T> {
    /// A vector of `len` slots, each filled with the type's default.
    pub fn new_default(len: usize) -> (r: StaticVec<T>)
        ensures
            r.wf(),
            r.slots().len() == len,
            forall|i: int| 0 <= i < len ==> r.slots()[i] is Some,
    {
        let d = T::default();
        let mut vec: Vec<Option<T>> = Vec::new();
        let mut i: usize = 0;
        while i < len
            invariant
                i <= len,
                vec@.len() == i,
                forall|j: int| 0 <= j < i ==> vec@[j] is Some,
            decreases len - i,
        {
            vec.push(Some(d.clone()));
            i = i + 1;
        }
        StaticVec { vec, len }
    }
}

} // verus!

//! Identity hashers: each remembers the one integer it was fed and hands
//! it back as the hash, for keys that are already well-distributed.
use vstd::prelude::*;

verus! {

pub struct U64IdentityHasher {
    pub value: u64,
}

impl U64IdentityHasher {
    pub fn new() -> (r: U64IdentityHasher)
        ensures
            r.value == 0,
    {
        Self { value: 0 }
    }

    pub fn write_u64(&mut self, i: u64)
        ensures
            final(self).value == i,
    {
        self.value = i;
    }

    pub fn finish(&self) -> (r: u64)
        ensures
            r == self.value,
    {
        self.value
    }
}

pub struct U32IdentityHasher {
    pub value: u32,
}

impl U32IdentityHasher {
    pub fn new() -> (r: U32IdentityHasher)
        ensures
            r.value == 0,
    {
        Self { value: 0 }
    }

    pub fn write_u32(&mut self, i: u32)
        ensures
            final(self).value == i,
    {
        self.value = i;
    }

    pub fn finish(&self) -> (r: u64)
        ensures
            r == self.value as u64,
    {
        self.value as u64
    }
}

pub struct I64IdentityHasher {
    pub value: i64,
}

impl I64IdentityHasher {
    pub fn new() -> (r: I64IdentityHasher)
        ensures
            r.value == 0,
    {
        Self { value: 0 }
    }

    pub fn write_i64(&mut self, i: i64)
        ensures
            final(self).value == i,
    {
        self.value = i;
    }

    pub fn finish(&self) -> (r: u64)
        ensures
            r == crate::wire::u64_of_i64(self.value),
    {
        if self.value >= 0 {
            self.value as u64
        } else {
            (((self.value as i128) + 0x10000000000000000) as u64)
        }
    }
}

pub struct I32IdentityHasher {
    pub value: i32,
}

impl I32IdentityHasher {
    pub fn new() -> (r: I32IdentityHasher)
        ensures
            r.value == 0,
    {
        Self { value: 0 }
    }

    pub fn write_i32(&mut self, i: i32)
        ensures
            final(self).value == i,
    {
        self.value = i;
    }

    pub fn finish(&self) -> (r: u64)
        ensures
            r == crate::wire::u32_of_i32(self.value) as u64,
    {
        if self.value >= 0 {
            self.value as u64
        } else {
            ((self.value as i64) + 0x100000000) as u64
        }
    }
}

pub struct UsizeIdentityHasher {
    pub value: usize,
}

impl UsizeIdentityHasher {
    pub fn new() -> (r: UsizeIdentityHasher)
        ensures
            r.value == 0,
    {
        Self { value: 0 }
    }

    pub fn write_usize(&mut self, u: usize)
        ensures
            final(self).value == u,
    {
        self.value = u;
    }

    pub fn finish(&self) -> (r: u64)
        ensures
            r == self.value as u64,
    {
        self.value as u64
    }
}

} // verus!

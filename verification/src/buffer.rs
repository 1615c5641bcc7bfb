//! The byte buffer every value is saved into and loaded from: a growable
//! byte vector with a read cursor. Writes always append at the end; reads
//! consume bytes at the read cursor. Multi-byte integers are stored in the
//! endianness the buffer was created with.
use crate::wire::{bool_byte, bytes2, bytes4, bytes8, u16_of_i16, u32_of_i32, u64_of_i64, u8_of_i8};
use vstd::prelude::*;

verus! {

/// The mathematical model of a buffer: its bytes, the read cursor, and
/// whether integers are laid down little-endian.
pub struct BufModel {
    pub data: Seq<u8>,
    pub rpos: nat,
    pub le: bool,
}

impl BufModel {
    /// The bytes that remain to be read.
    pub open spec fn remaining(self) -> Seq<u8> {
        self.data.subrange(self.rpos as int, self.data.len() as int)
    }

    /// True when the unread part of the buffer begins with `s`.
    pub open spec fn starts_with(self, s: Seq<u8>) -> bool {
        &&& self.rpos + s.len() <= self.data.len()
        &&& self.data.subrange(self.rpos as int, self.rpos as int + s.len() as int) == s
    }
}

pub struct ByteBuffer {
    data: Vec<u8>,
    rpos: usize,
    le: bool,
}

impl View for ByteBuffer {
    type V = BufModel;

    closed spec fn view(&self) -> BufModel {
        BufModel {
            data: self.data@,
            rpos: if self.rpos <= self.data.len() {
                self.rpos as nat
            } else {
                self.data@.len()
            },
            le: self.le,
        }
    }
}

impl ByteBuffer {
    /// The read cursor never runs past the end of the data.
    pub proof fn lemma_rpos_bound(&self)
        ensures
            self@.rpos <= self@.data.len(),
    {
    }

    /// The data lives in memory, so its length fits the address space.
    pub proof fn lemma_data_bound(&self)
        ensures
            self@.data.len() <= usize::MAX,
    {
        broadcast use vstd::std_specs::vec::axiom_spec_len;

    }

    /// Brings the stored cursor back into bounds. The model is unchanged:
    /// it already reads an out-of-range cursor as the end of the data.
    fn clamp_cursor(&mut self)
        ensures
            final(self)@ == old(self)@,
            final(self).rpos <= final(self).data@.len(),
            final(self).rpos == final(self)@.rpos,
            final(self).data@ == final(self)@.data,
            final(self).le == final(self)@.le,
    {
        if self.rpos > self.data.len() {
            self.rpos = self.data.len();
        }
    }

    /// An empty big-endian buffer.
    pub fn new() -> (r: ByteBuffer)
        ensures
            r@.data == Seq::<u8>::empty(),
            r@.rpos == 0,
            r@.le == false,
    {
        ByteBuffer { data: Vec::new(), rpos: 0, le: false }
    }

    /// An empty big-endian buffer with space reserved for `capacity` bytes.
    pub fn with_capacity(capacity: usize) -> (r: ByteBuffer)
        ensures
            r@.data == Seq::<u8>::empty(),
            r@.rpos == 0,
            r@.le == false,
    {
        ByteBuffer { data: Vec::with_capacity(capacity), rpos: 0, le: false }
    }

    /// A big-endian buffer holding the given bytes, read cursor at the start.
    pub fn from_vec(data: Vec<u8>) -> (r: ByteBuffer)
        ensures
            r@.data == data@,
            r@.rpos == 0,
            r@.le == false,
    {
        ByteBuffer { data, rpos: 0, le: false }
    }

    /// A big-endian buffer holding a copy of the given bytes.
    pub fn from_bytes(bytes: &[u8]) -> (r: ByteBuffer)
        ensures
            r@.data == bytes@,
            r@.rpos == 0,
            r@.le == false,
    {
        ByteBuffer { data: vstd::slice::slice_to_vec(bytes), rpos: 0, le: false }
    }

    pub(crate) fn with_endian(data: Vec<u8>, le: bool) -> (r: ByteBuffer)
        ensures
            r@.data == data@,
            r@.rpos == 0,
            r@.le == le,
    {
        ByteBuffer { data, rpos: 0, le }
    }

    /// Gives the buffer's bytes away.
    pub fn into_vec(self) -> (r: Vec<u8>)
        ensures
            r@ == self@.data,
    {
        self.data
    }

    /// All bytes held by the buffer, read or not.
    pub fn as_bytes(&self) -> (r: &[u8])
        ensures
            r@ == self@.data,
    {
        self.data.as_slice()
    }

    /// How many bytes the buffer holds in total.
    pub fn len(&self) -> (r: usize)
        ensures
            r == self@.data.len(),
    {
        self.data.len()
    }

    pub fn is_empty(&self) -> (r: bool)
        ensures
            r == (self@.data.len() == 0),
    {
        self.data.is_empty()
    }

    /// True when integers are stored least-significant byte first.
    pub fn is_little_endian(&self) -> (r: bool)
        ensures
            r == self@.le,
    {
        self.le
    }

    pub fn get_rpos(&self) -> (r: usize)
        ensures
            r == self@.rpos,
    {
        if self.rpos <= self.data.len() {
            self.rpos
        } else {
            self.data.len()
        }
    }

    /// Moves the read cursor, clamped to the end of the data.
    pub fn set_rpos(&mut self, rpos: usize)
        ensures
            final(self)@.data == old(self)@.data,
            final(self)@.le == old(self)@.le,
            final(self)@.rpos == if rpos <= old(self)@.data.len() {
                rpos as nat
            } else {
                old(self)@.data.len()
            },
    {
        if rpos <= self.data.len() {
            self.rpos = rpos;
        } else {
            self.rpos = self.data.len();
        }
    }

    /// Puts the read cursor back at the start; writes keep appending at the end.
    pub fn reset_cursors(&mut self)
        ensures
            final(self)@.data == old(self)@.data,
            final(self)@.le == old(self)@.le,
            final(self)@.rpos == 0,
    {
        self.rpos = 0;
    }

    pub fn push_bytes(&mut self, bytes: &[u8])
        ensures
            final(self)@.data == old(self)@.data + bytes@,
            final(self)@.rpos == old(self)@.rpos,
            final(self)@.le == old(self)@.le,
    {
        self.clamp_cursor();
        self.data.extend_from_slice(bytes);
    }

    pub fn push_u8(&mut self, value: u8)
        ensures
            final(self)@.data == old(self)@.data + seq![value],
            final(self)@.rpos == old(self)@.rpos,
            final(self)@.le == old(self)@.le,
    {
        self.clamp_cursor();
        self.data.push(value);
        assert(self@.data =~= old(self)@.data + seq![value]);
    }

    pub fn push_bool(&mut self, value: bool)
        ensures
            final(self)@.data == old(self)@.data + seq![bool_byte(value)],
            final(self)@.rpos == old(self)@.rpos,
            final(self)@.le == old(self)@.le,
    {
        self.push_u8(if value {
            1
        } else {
            0
        });
    }

    pub fn push_u16(&mut self, value: u16)
        ensures
            final(self)@.data == old(self)@.data + bytes2(value, old(self)@.le),
            final(self)@.rpos == old(self)@.rpos,
            final(self)@.le == old(self)@.le,
    {
        let lo: u8 = (value % 256) as u8;
        let hi: u8 = (value / 256) as u8;
        if self.le {
            self.push_u8(lo);
            self.push_u8(hi);
        } else {
            self.push_u8(hi);
            self.push_u8(lo);
        }
        assert(self@.data =~= old(self)@.data + bytes2(value, old(self)@.le));
    }

    pub fn push_u32(&mut self, value: u32)
        ensures
            final(self)@.data == old(self)@.data + bytes4(value, old(self)@.le),
            final(self)@.rpos == old(self)@.rpos,
            final(self)@.le == old(self)@.le,
    {
        let b0: u8 = (value % 256) as u8;
        let b1: u8 = ((value / 256) % 256) as u8;
        let b2: u8 = ((value / 65536) % 256) as u8;
        let b3: u8 = ((value / 16777216) % 256) as u8;
        if self.le {
            self.push_u8(b0);
            self.push_u8(b1);
            self.push_u8(b2);
            self.push_u8(b3);
        } else {
            self.push_u8(b3);
            self.push_u8(b2);
            self.push_u8(b1);
            self.push_u8(b0);
        }
        assert(self@.data =~= old(self)@.data + bytes4(value, old(self)@.le));
    }

    pub fn push_u64(&mut self, value: u64)
        ensures
            final(self)@.data == old(self)@.data + bytes8(value, old(self)@.le),
            final(self)@.rpos == old(self)@.rpos,
            final(self)@.le == old(self)@.le,
    {
        let b0: u8 = (value % 256) as u8;
        let b1: u8 = ((value / 0x100) % 256) as u8;
        let b2: u8 = ((value / 0x10000) % 256) as u8;
        let b3: u8 = ((value / 0x1000000) % 256) as u8;
        let b4: u8 = ((value / 0x100000000) % 256) as u8;
        let b5: u8 = ((value / 0x10000000000) % 256) as u8;
        let b6: u8 = ((value / 0x1000000000000) % 256) as u8;
        let b7: u8 = ((value / 0x100000000000000) % 256) as u8;
        if self.le {
            self.push_u8(b0);
            self.push_u8(b1);
            self.push_u8(b2);
            self.push_u8(b3);
            self.push_u8(b4);
            self.push_u8(b5);
            self.push_u8(b6);
            self.push_u8(b7);
        } else {
            self.push_u8(b7);
            self.push_u8(b6);
            self.push_u8(b5);
            self.push_u8(b4);
            self.push_u8(b3);
            self.push_u8(b2);
            self.push_u8(b1);
            self.push_u8(b0);
        }
        assert(self@.data =~= old(self)@.data + bytes8(value, old(self)@.le));
    }

    pub fn push_i8(&mut self, value: i8)
        ensures
            final(self)@.data == old(self)@.data + seq![u8_of_i8(value)],
            final(self)@.rpos == old(self)@.rpos,
            final(self)@.le == old(self)@.le,
    {
        let u: u8 = if value >= 0 {
            value as u8
        } else {
            ((value as i16) + 0x100) as u8
        };
        assert(u == u8_of_i8(value));
        self.push_u8(u);
    }

    pub fn push_i16(&mut self, value: i16)
        ensures
            final(self)@.data == old(self)@.data + bytes2(u16_of_i16(value), old(self)@.le),
            final(self)@.rpos == old(self)@.rpos,
            final(self)@.le == old(self)@.le,
    {
        let u: u16 = if value >= 0 {
            value as u16
        } else {
            ((value as i32) + 0x10000) as u16
        };
        assert(u == u16_of_i16(value));
        self.push_u16(u);
    }

    pub fn push_i32(&mut self, value: i32)
        ensures
            final(self)@.data == old(self)@.data + bytes4(u32_of_i32(value), old(self)@.le),
            final(self)@.rpos == old(self)@.rpos,
            final(self)@.le == old(self)@.le,
    {
        let u: u32 = if value >= 0 {
            value as u32
        } else {
            ((value as i64) + 0x100000000) as u32
        };
        assert(u == u32_of_i32(value));
        self.push_u32(u);
    }

    pub fn push_i64(&mut self, value: i64)
        ensures
            final(self)@.data == old(self)@.data + bytes8(u64_of_i64(value), old(self)@.le),
            final(self)@.rpos == old(self)@.rpos,
            final(self)@.le == old(self)@.le,
    {
        let u: u64 = if value >= 0 {
            value as u64
        } else {
            (((value as i128) + 0x10000000000000000) as u64)
        };
        assert(u == u64_of_i64(value));
        self.push_u64(u);
    }

    /// Writes a string as a four-byte length followed by its UTF-8 bytes.
    pub fn push_string(&mut self, value: &str)
        requires
            vstd::utf8::encode_utf8(value@).len() < 0x100000000,
        ensures
            final(self)@.data == old(self)@.data + bytes4(
                vstd::utf8::encode_utf8(value@).len() as u32,
                old(self)@.le,
            ) + vstd::utf8::encode_utf8(value@),
            final(self)@.rpos == old(self)@.rpos,
            final(self)@.le == old(self)@.le,
    {
        let bytes = value.as_bytes();
        let n = bytes.len();
        self.push_u32(n as u32);
        self.push_bytes(bytes);
        assert(self@.data =~= old(self)@.data + bytes4(
            vstd::utf8::encode_utf8(value@).len() as u32,
            old(self)@.le,
        ) + vstd::utf8::encode_utf8(value@));
    }

    /// Reads back a length-prefixed UTF-8 string. It fails when fewer bytes
    /// remain than the prefix demands or when they are not valid UTF-8 —
    /// exactly when no string's encoding opens the unread bytes.
    pub fn pop_string(&mut self) -> (r: Option<String>)
        ensures
            final(self)@.data == old(self)@.data,
            final(self)@.le == old(self)@.le,
            final(self)@.rpos >= old(self)@.rpos,
            final(self)@.rpos <= old(self)@.data.len(),
            match r {
                Some(s) => {
                    &&& vstd::utf8::encode_utf8(s@).len() < 0x100000000
                    &&& old(self)@.starts_with(
                        bytes4(
                            vstd::utf8::encode_utf8(s@).len() as u32,
                            old(self)@.le,
                        ) + vstd::utf8::encode_utf8(s@),
                    )
                    &&& final(self)@.rpos == old(self)@.rpos + 4 + vstd::utf8::encode_utf8(
                        s@,
                    ).len()
                },
                None => !(exists|t: Seq<char>|
                    vstd::utf8::encode_utf8(t).len() < 0x100000000 && old(self)@.starts_with(
                        bytes4(
                            vstd::utf8::encode_utf8(t).len() as u32,
                            old(self)@.le,
                        ) + vstd::utf8::encode_utf8(t),
                    )),
            },
    {
        proof {
            self.lemma_rpos_bound();
        }
        let ghost m0 = self@;
        let n_opt = self.pop_u32();
        match n_opt {
            None => {
                proof {
                    assert forall|t: Seq<char>|
                        vstd::utf8::encode_utf8(t).len() < 0x100000000 && m0.starts_with(
                            bytes4(
                                vstd::utf8::encode_utf8(t).len() as u32,
                                m0.le,
                            ) + vstd::utf8::encode_utf8(t),
                        ) implies false by {
                        let p = bytes4(vstd::utf8::encode_utf8(t).len() as u32, m0.le)
                            + vstd::utf8::encode_utf8(t);
                        assert(p.len() >= 4);
                    }
                }
                None
            },
            Some(n) => {
                let ghost m1 = self@;
                match self.pop_bytes(n as usize) {
                    None => {
                        proof {
                            assert forall|t: Seq<char>|
                                vstd::utf8::encode_utf8(t).len() < 0x100000000 && m0.starts_with(
                                    bytes4(
                                        vstd::utf8::encode_utf8(t).len() as u32,
                                        m0.le,
                                    ) + vstd::utf8::encode_utf8(t),
                                ) implies false by {
                                let u = vstd::utf8::encode_utf8(t);
                                let p = bytes4(u.len() as u32, m0.le) + u;
                                assert(p.subrange(0, 4) =~= bytes4(u.len() as u32, m0.le));
                                assert(m0.data.subrange(m0.rpos as int, m0.rpos as int + 4)
                                    =~= p.subrange(0, 4));
                                crate::wire::lemma_bytes4_injective(n, u.len() as u32, m0.le);
                                assert(u.len() == n);
                                assert(m0.rpos + p.len() <= m0.data.len());
                            }
                        }
                        None
                    },
                    Some(bytes) => {
                        let ghost raw = bytes@;
                        match string_from_utf8(bytes) {
                            Some(s) => {
                                proof {
                                    let u = vstd::utf8::encode_utf8(s@);
                                    let p = bytes4(u.len() as u32, m0.le) + u;
                                    assert(u == raw);
                                    assert(m0.data.subrange(
                                        m0.rpos as int,
                                        m0.rpos as int + p.len() as int,
                                    ) =~= p);
                                }
                                Some(s)
                            },
                            None => {
                                proof {
                                    assert forall|t: Seq<char>|
                                        vstd::utf8::encode_utf8(t).len() < 0x100000000
                                            && m0.starts_with(
                                            bytes4(
                                                vstd::utf8::encode_utf8(t).len() as u32,
                                                m0.le,
                                            ) + vstd::utf8::encode_utf8(t),
                                        ) implies false by {
                                        let u = vstd::utf8::encode_utf8(t);
                                        let p = bytes4(u.len() as u32, m0.le) + u;
                                        assert(p.subrange(0, 4) =~= bytes4(u.len() as u32, m0.le));
                                        assert(m0.data.subrange(m0.rpos as int, m0.rpos as int + 4)
                                            =~= p.subrange(0, 4));
                                        crate::wire::lemma_bytes4_injective(
                                            n,
                                            u.len() as u32,
                                            m0.le,
                                        );
                                        assert(u.len() == n);
                                        assert(p.subrange(4, p.len() as int) =~= u);
                                        assert(m0.data.subrange(
                                            m0.rpos as int + 4,
                                            m0.rpos as int + 4 + n,
                                        ) =~= p.subrange(4, p.len() as int));
                                        assert(raw == u);
                                        vstd::utf8::encode_utf8_valid_utf8(t);
                                    }
                                }
                                None
                            },
                        }
                    },
                }
            },
        }
    }

    pub fn pop_bytes(&mut self, amount: usize) -> (r: Option<Vec<u8>>)
        ensures
            final(self)@.data == old(self)@.data,
            final(self)@.le == old(self)@.le,
            match r {
                Some(v) => {
                    &&& old(self)@.rpos + amount <= old(self)@.data.len()
                    &&& v@ == old(self)@.data.subrange(
                        old(self)@.rpos as int,
                        old(self)@.rpos + amount,
                    )
                    &&& final(self)@.rpos == old(self)@.rpos + amount
                },
                None => {
                    &&& old(self)@.rpos + amount > old(self)@.data.len()
                    &&& final(self)@ == old(self)@
                },
            },
    {
        self.clamp_cursor();
        if amount <= self.data.len() - self.rpos {
            let s = vstd::slice::slice_subrange(self.data.as_slice(), self.rpos, self.rpos
                + amount);
            let v = vstd::slice::slice_to_vec(s);
            self.rpos = self.rpos + amount;
            Some(v)
        } else {
            None
        }
    }

    /// Consumes and returns every byte that has not been read yet.
    pub fn pop_to_end(&mut self) -> (r: Option<Vec<u8>>)
        ensures
            final(self)@.data == old(self)@.data,
            final(self)@.le == old(self)@.le,
            final(self)@.rpos == old(self)@.data.len(),
            match r {
                Some(v) => v@ == old(self)@.remaining(),
                None => false,
            },
    {
        self.clamp_cursor();
        let amount = self.data.len() - self.rpos;
        self.pop_bytes(amount)
    }

    pub fn pop_u8(&mut self) -> (r: Option<u8>)
        ensures
            final(self)@.data == old(self)@.data,
            final(self)@.le == old(self)@.le,
            match r {
                Some(v) => {
                    &&& old(self)@.rpos + 1 <= old(self)@.data.len()
                    &&& v == old(self)@.data[old(self)@.rpos as int]
                    &&& final(self)@.rpos == old(self)@.rpos + 1
                },
                None => {
                    &&& old(self)@.rpos == old(self)@.data.len()
                    &&& final(self)@ == old(self)@
                },
            },
    {
        self.clamp_cursor();
        if self.rpos < self.data.len() {
            let b = self.data[self.rpos];
            self.rpos = self.rpos + 1;
            Some(b)
        } else {
            None
        }
    }

    pub fn pop_bool(&mut self) -> (r: Option<bool>)
        ensures
            final(self)@.data == old(self)@.data,
            final(self)@.le == old(self)@.le,
            match r {
                Some(v) => {
                    &&& old(self)@.rpos + 1 <= old(self)@.data.len()
                    &&& v == (old(self)@.data[old(self)@.rpos as int] != 0)
                    &&& final(self)@.rpos == old(self)@.rpos + 1
                },
                None => {
                    &&& old(self)@.rpos == old(self)@.data.len()
                    &&& final(self)@ == old(self)@
                },
            },
    {
        match self.pop_u8() {
            Some(b) => Some(b != 0),
            None => None,
        }
    }

    pub fn pop_u16(&mut self) -> (r: Option<u16>)
        ensures
            final(self)@.data == old(self)@.data,
            final(self)@.le == old(self)@.le,
            match r {
                Some(v) => {
                    &&& old(self)@.rpos + 2 <= old(self)@.data.len()
                    &&& old(self)@.data.subrange(old(self)@.rpos as int, old(self)@.rpos as int + 2)
                        == bytes2(v, old(self)@.le)
                    &&& final(self)@.rpos == old(self)@.rpos + 2
                },
                None => {
                    &&& old(self)@.rpos + 2 > old(self)@.data.len()
                    &&& final(self)@ == old(self)@
                },
            },
    {
        self.clamp_cursor();
        if self.data.len() - self.rpos >= 2 {
            let b0 = self.data[self.rpos];
            let b1 = self.data[self.rpos + 1];
            let v: u16 = if self.le {
                (b0 as u16) + (b1 as u16) * 256
            } else {
                (b1 as u16) + (b0 as u16) * 256
            };
            proof {
                if self.le {
                    assert(v % 256 == b0 && v / 256 == b1) by (nonlinear_arith)
                        requires
                            v == (b0 as u16) + (b1 as u16) * 256,
                            b0 < 256,
                            b1 < 256,
                    ;
                } else {
                    assert(v % 256 == b1 && v / 256 == b0) by (nonlinear_arith)
                        requires
                            v == (b1 as u16) + (b0 as u16) * 256,
                            b0 < 256,
                            b1 < 256,
                    ;
                }
                assert(self@.data.subrange(self@.rpos as int, self@.rpos as int + 2) =~= bytes2(
                    v,
                    self@.le,
                ));
            }
            self.rpos = self.rpos + 2;
            Some(v)
        } else {
            None
        }
    }

    pub fn pop_u32(&mut self) -> (r: Option<u32>)
        ensures
            final(self)@.data == old(self)@.data,
            final(self)@.le == old(self)@.le,
            match r {
                Some(v) => {
                    &&& old(self)@.rpos + 4 <= old(self)@.data.len()
                    &&& old(self)@.data.subrange(old(self)@.rpos as int, old(self)@.rpos as int + 4)
                        == bytes4(v, old(self)@.le)
                    &&& final(self)@.rpos == old(self)@.rpos + 4
                },
                None => {
                    &&& old(self)@.rpos + 4 > old(self)@.data.len()
                    &&& final(self)@ == old(self)@
                },
            },
    {
        self.clamp_cursor();
        if self.data.len() - self.rpos >= 4 {
            let b0 = self.data[self.rpos];
            let b1 = self.data[self.rpos + 1];
            let b2 = self.data[self.rpos + 2];
            let b3 = self.data[self.rpos + 3];
            let (x0, x1, x2, x3) = if self.le {
                (b0, b1, b2, b3)
            } else {
                (b3, b2, b1, b0)
            };
            let v: u32 = (x0 as u32) + (x1 as u32) * 256 + (x2 as u32) * 65536 + (x3 as u32)
                * 16777216;
            proof {
                assert(v % 256 == x0 && (v / 256) % 256 == x1 && (v / 65536) % 256 == x2 && (v
                    / 16777216) % 256 == x3) by (nonlinear_arith)
                    requires
                        v == (x0 as u32) + (x1 as u32) * 256 + (x2 as u32) * 65536 + (x3 as u32)
                            * 16777216,
                        x0 < 256,
                        x1 < 256,
                        x2 < 256,
                        x3 < 256,
                ;
                assert(self@.data.subrange(self@.rpos as int, self@.rpos as int + 4) =~= bytes4(
                    v,
                    self@.le,
                ));
            }
            self.rpos = self.rpos + 4;
            Some(v)
        } else {
            None
        }
    }

    pub fn pop_u64(&mut self) -> (r: Option<u64>)
        ensures
            final(self)@.data == old(self)@.data,
            final(self)@.le == old(self)@.le,
            match r {
                Some(v) => {
                    &&& old(self)@.rpos + 8 <= old(self)@.data.len()
                    &&& old(self)@.data.subrange(old(self)@.rpos as int, old(self)@.rpos as int + 8)
                        == bytes8(v, old(self)@.le)
                    &&& final(self)@.rpos == old(self)@.rpos + 8
                },
                None => {
                    &&& old(self)@.rpos + 8 > old(self)@.data.len()
                    &&& final(self)@ == old(self)@
                },
            },
    {
        self.clamp_cursor();
        if self.data.len() - self.rpos >= 8 {
            let b0 = self.data[self.rpos];
            let b1 = self.data[self.rpos + 1];
            let b2 = self.data[self.rpos + 2];
            let b3 = self.data[self.rpos + 3];
            let b4 = self.data[self.rpos + 4];
            let b5 = self.data[self.rpos + 5];
            let b6 = self.data[self.rpos + 6];
            let b7 = self.data[self.rpos + 7];
            let (x0, x1, x2, x3, x4, x5, x6, x7) = if self.le {
                (b0, b1, b2, b3, b4, b5, b6, b7)
            } else {
                (b7, b6, b5, b4, b3, b2, b1, b0)
            };
            let v: u64 = (x0 as u64) + (x1 as u64) * 0x100 + (x2 as u64) * 0x10000 + (x3 as u64)
                * 0x1000000 + (x4 as u64) * 0x100000000 + (x5 as u64) * 0x10000000000 + (x6 as u64)
                * 0x1000000000000 + (x7 as u64) * 0x100000000000000;
            proof {
                crate::wire::lemma_u64_digits(v as int, x0, x1, x2, x3, x4, x5, x6, x7);
                assert(self@.data.subrange(self@.rpos as int, self@.rpos as int + 8) =~= bytes8(
                    v,
                    self@.le,
                ));
            }
            self.rpos = self.rpos + 8;
            Some(v)
        } else {
            None
        }
    }

    pub fn pop_i8(&mut self) -> (r: Option<i8>)
        ensures
            final(self)@.data == old(self)@.data,
            final(self)@.le == old(self)@.le,
            match r {
                Some(v) => {
                    &&& old(self)@.rpos + 1 <= old(self)@.data.len()
                    &&& old(self)@.data[old(self)@.rpos as int] == u8_of_i8(v)
                    &&& final(self)@.rpos == old(self)@.rpos + 1
                },
                None => {
                    &&& old(self)@.rpos == old(self)@.data.len()
                    &&& final(self)@ == old(self)@
                },
            },
    {
        match self.pop_u8() {
            Some(u) => {
                let v: i8 = if u < 0x80 {
                    u as i8
                } else {
                    ((u as i16) - 0x100) as i8
                };
                assert(u == u8_of_i8(v));
                Some(v)
            },
            None => None,
        }
    }

    pub fn pop_i16(&mut self) -> (r: Option<i16>)
        ensures
            final(self)@.data == old(self)@.data,
            final(self)@.le == old(self)@.le,
            match r {
                Some(v) => {
                    &&& old(self)@.rpos + 2 <= old(self)@.data.len()
                    &&& old(self)@.data.subrange(old(self)@.rpos as int, old(self)@.rpos as int + 2)
                        == bytes2(u16_of_i16(v), old(self)@.le)
                    &&& final(self)@.rpos == old(self)@.rpos + 2
                },
                None => {
                    &&& old(self)@.rpos + 2 > old(self)@.data.len()
                    &&& final(self)@ == old(self)@
                },
            },
    {
        match self.pop_u16() {
            Some(u) => {
                let v: i16 = if u < 0x8000 {
                    u as i16
                } else {
                    ((u as i32) - 0x10000) as i16
                };
                assert(u == u16_of_i16(v));
                Some(v)
            },
            None => None,
        }
    }

    pub fn pop_i32(&mut self) -> (r: Option<i32>)
        ensures
            final(self)@.data == old(self)@.data,
            final(self)@.le == old(self)@.le,
            match r {
                Some(v) => {
                    &&& old(self)@.rpos + 4 <= old(self)@.data.len()
                    &&& old(self)@.data.subrange(old(self)@.rpos as int, old(self)@.rpos as int + 4)
                        == bytes4(u32_of_i32(v), old(self)@.le)
                    &&& final(self)@.rpos == old(self)@.rpos + 4
                },
                None => {
                    &&& old(self)@.rpos + 4 > old(self)@.data.len()
                    &&& final(self)@ == old(self)@
                },
            },
    {
        match self.pop_u32() {
            Some(u) => {
                let v: i32 = if u < 0x80000000 {
                    u as i32
                } else {
                    ((u as i64) - 0x100000000) as i32
                };
                assert(u == u32_of_i32(v));
                Some(v)
            },
            None => None,
        }
    }

    pub fn pop_i64(&mut self) -> (r: Option<i64>)
        ensures
            final(self)@.data == old(self)@.data,
            final(self)@.le == old(self)@.le,
            match r {
                Some(v) => {
                    &&& old(self)@.rpos + 8 <= old(self)@.data.len()
                    &&& old(self)@.data.subrange(old(self)@.rpos as int, old(self)@.rpos as int + 8)
                        == bytes8(u64_of_i64(v), old(self)@.le)
                    &&& final(self)@.rpos == old(self)@.rpos + 8
                },
                None => {
                    &&& old(self)@.rpos + 8 > old(self)@.data.len()
                    &&& final(self)@ == old(self)@
                },
            },
    {
        match self.pop_u64() {
            Some(u) => {
                let v: i64 = if u < 0x8000000000000000 {
                    u as i64
                } else {
                    (((u as i128) - 0x10000000000000000) as i64)
                };
                assert(u == u64_of_i64(v));
                Some(v)
            },
            None => None,
        }
    }
}

/// Relies on String::from_utf8: on valid UTF-8 input it yields the string
/// whose byte encoding is exactly the input, and it fails exactly on
/// invalid UTF-8.
#[verifier::external_body]
pub(crate) fn string_from_utf8(bytes: Vec<u8>) -> (r: Option<String>)
    ensures
        match r {
            Some(s) => vstd::utf8::encode_utf8(s@) == bytes@,
            None => !vstd::utf8::valid_utf8(bytes@),
        },
        vstd::utf8::valid_utf8(bytes@) ==> r is Some,
{
    String::from_utf8(bytes).ok()
}

} // verus!

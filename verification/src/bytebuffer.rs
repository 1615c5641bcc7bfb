//! Constructors that pick the buffer's endianness explicitly, or take the
//! machine's own byte order.
use crate::buffer::{BufModel, ByteBuffer};
use vstd::prelude::*;

verus! {

/// Relies on u16::to_ne_bytes: how the machine lays out a two-byte
/// integer decides its native byte order, which no contract can pin down.
#[verifier::external_body]
fn native_little_endian() -> bool {
    u16::to_ne_bytes(1)[0] == 1
}

pub trait ByteBufferExtras: Sized + View<V = BufModel> {
    /// An empty little-endian buffer.
    fn new_le() -> (r: Self)
        ensures
            r@.data == Seq::<u8>::empty(),
            r@.rpos == 0,
            r@.le == true,
    ;

    /// An empty big-endian buffer.
    fn new_be() -> (r: Self)
        ensures
            r@.data == Seq::<u8>::empty(),
            r@.rpos == 0,
            r@.le == false,
    ;

    /// An empty buffer in the machine's own byte order.
    fn new_ne() -> (r: Self)
        ensures
            r@.data == Seq::<u8>::empty(),
            r@.rpos == 0,
    ;

    /// A little-endian buffer over the given bytes.
    fn from_vec_le(data: Vec<u8>) -> (r: Self)
        ensures
            r@.data == data@,
            r@.rpos == 0,
            r@.le == true,
    ;

    /// A big-endian buffer over the given bytes.
    fn from_vec_be(data: Vec<u8>) -> (r: Self)
        ensures
            r@.data == data@,
            r@.rpos == 0,
            r@.le == false,
    ;

    /// A buffer over the given bytes in the machine's own byte order.
    fn from_vec_ne(data: Vec<u8>) -> (r: Self)
        ensures
            r@.data == data@,
            r@.rpos == 0,
    ;
}

impl ByteBufferExtras for ByteBuffer {
    fn new_le() -> (r: Self) {
        ByteBuffer::with_endian(Vec::new(), true)
    }

    fn new_be() -> (r: Self) {
        ByteBuffer::with_endian(Vec::new(), false)
    }

    fn new_ne() -> (r: Self) {
        ByteBuffer::with_endian(Vec::new(), native_little_endian())
    }

    fn from_vec_le(data: Vec<u8>) -> (r: Self) {
        ByteBuffer::with_endian(data, true)
    }

    fn from_vec_be(data: Vec<u8>) -> (r: Self) {
        ByteBuffer::with_endian(data, false)
    }

    fn from_vec_ne(data: Vec<u8>) -> (r: Self) {
        ByteBuffer::with_endian(data, native_little_endian())
    }
}

} // verus!

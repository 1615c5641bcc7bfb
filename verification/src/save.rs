//! The save/load contract. A savable type names the mathematical value it
//! stands for (its model), the canonical bytes a save writes for it, and the
//! byte sequences a load accepts for it. Saving is total over encodable
//! models; loading consumes exactly one accepted encoding or fails, and two
//! accepted encodings never open the same stream, so whatever was saved is
//! read back unchanged.
use crate::buffer::ByteBuffer;
use crate::varint::{
    varint_enc, varint_fits, varint_read, varint_value, varint_write, varint_write_signed, zigzag,
};
use crate::wire::{
    bool_byte, bytes2, bytes4, bytes8, u16_of_i16, u32_of_i32, u64_of_i64, u8_of_i8,
};
use vstd::arithmetic::power2::pow2;
use vstd::prelude::*;

verus! {

/// Two byte sequences of the same length opening the same stream are equal.
pub proof fn lemma_fixed_prefix(b1: Seq<u8>, b2: Seq<u8>, t1: Seq<u8>, t2: Seq<u8>)
    requires
        b1.len() == b2.len(),
        b1 + t1 == b2 + t2,
    ensures
        b1 == b2,
{
    assert forall|i: int| 0 <= i < b1.len() implies b1[i] == b2[i] by {
        assert((b1 + t1)[i] == (b2 + t2)[i]);
        assert((b1 + t1)[i] == b1[i]);
        assert((b2 + t2)[i] == b2[i]);
    }
    assert(b1 =~= b2);
}

/// Chopping the first `k` bytes off two decompositions of one stream.
pub proof fn lemma_chop(b1: Seq<u8>, b2: Seq<u8>, t1: Seq<u8>, t2: Seq<u8>, k: int)
    requires
        0 <= k <= b1.len(),
        k <= b2.len(),
        b1 + t1 == b2 + t2,
    ensures
        b1.take(k) == b2.take(k),
        b1.skip(k) + t1 == b2.skip(k) + t2,
{
    assert(b1.len() + t1.len() == b2.len() + t2.len()) by {
        assert((b1 + t1).len() == b1.len() + t1.len());
        assert((b2 + t2).len() == b2.len() + t2.len());
        assert((b1 + t1).len() == (b2 + t2).len());
    }
    assert forall|i: int| 0 <= i < k implies b1.take(k)[i] == b2.take(k)[i] by {
        assert((b1 + t1)[i] == (b2 + t2)[i]);
        assert((b1 + t1)[i] == b1[i]);
        assert((b2 + t2)[i] == b2[i]);
    }
    assert(b1.take(k) =~= b2.take(k));
    assert forall|i: int| 0 <= i < b1.skip(k).len() + t1.len() implies (b1.skip(k) + t1)[i] == (
    b2.skip(k) + t2)[i] by {
        assert((b1 + t1)[i + k] == (b2 + t2)[i + k]);
        if i < b1.len() - k {
            assert((b1.skip(k) + t1)[i] == b1[i + k]);
            assert((b1 + t1)[i + k] == b1[i + k]);
        } else {
            assert((b1.skip(k) + t1)[i] == t1[i - (b1.len() - k)]);
            assert((b1 + t1)[i + k] == t1[i + k - b1.len()]);
        }
        if i < b2.len() - k {
            assert((b2.skip(k) + t2)[i] == b2[i + k]);
            assert((b2 + t2)[i + k] == b2[i + k]);
        } else {
            assert((b2.skip(k) + t2)[i] == t2[i - (b2.len() - k)]);
            assert((b2 + t2)[i + k] == t2[i + k - b2.len()]);
        }
    }
    assert(b1.skip(k) + t1 =~= b2.skip(k) + t2);
}

/// A value with a deterministic wire encoding.
pub trait Savable: Sized {
    /// The mathematical value this type stands for on the wire.
    type Model;

    /// The model of this value.
    spec fn model(&self) -> Self::Model;

    /// Whether the model can be written at all: every length fits its prefix.
    spec fn encodable(m: Self::Model) -> bool;

    /// The canonical bytes a save writes for a model, under the buffer's
    /// endianness.
    spec fn encoding(m: Self::Model, le: bool) -> Seq<u8>;

    /// The byte sequences a load reads back as this model. For most types
    /// this is exactly the canonical encoding; it is wider only where the
    /// wire format is lenient (any non-zero byte is a true boolean, a varint
    /// may carry redundant zero groups).
    spec fn accepts(m: Self::Model, le: bool, b: Seq<u8>) -> bool;

    /// The canonical encoding of an encodable model is accepted.
    proof fn lemma_encoding_accepted(m: Self::Model, le: bool)
        requires
            Self::encodable(m),
        ensures
            Self::accepts(m, le, Self::encoding(m, le)),
    ;

    /// Accepted encodings never collide: if two of them open the same
    /// stream, they are the same bytes for the same model. This is what
    /// makes loading deterministic and the round trip exact.
    proof fn lemma_accepts_unambiguous(
        m1: Self::Model,
        m2: Self::Model,
        le: bool,
        b1: Seq<u8>,
        b2: Seq<u8>,
        t1: Seq<u8>,
        t2: Seq<u8>,
    )
        requires
            Self::encodable(m1),
            Self::encodable(m2),
            Self::accepts(m1, le, b1),
            Self::accepts(m2, le, b2),
            b1 + t1 == b2 + t2,
        ensures
            m1 == m2,
            b1 == b2,
    ;

    /// Appends this value's canonical encoding to the buffer. Saving never
    /// fails and never moves the read cursor.
    fn save(&self, saver: &mut ByteBuffer)
        requires
            Self::encodable(self.model()),
        ensures
            final(saver)@.data == old(saver)@.data + Self::encoding(
                self.model(),
                old(saver)@.le,
            ),
            final(saver)@.rpos == old(saver)@.rpos,
            final(saver)@.le == old(saver)@.le,
    ;

    /// Saves the value and gives it up.
    fn save_consume(self, saver: &mut ByteBuffer)
        requires
            Self::encodable(self.model()),
        ensures
            final(saver)@.data == old(saver)@.data + Self::encoding(
                self.model(),
                old(saver)@.le,
            ),
            final(saver)@.rpos == old(saver)@.rpos,
            final(saver)@.le == old(saver)@.le,
    {
        self.save(saver);
    }

    /// Reads one value at the read cursor. On success the consumed bytes are
    /// an accepted encoding of the result; it fails exactly when no
    /// encodable model's accepted encoding opens the unread bytes, and the
    /// cursor is then left wherever the failing read stopped.
    fn load(loader: &mut ByteBuffer) -> (r: Result<Self, String>)
        ensures
            final(loader)@.data == old(loader)@.data,
            final(loader)@.le == old(loader)@.le,
            final(loader)@.rpos >= old(loader)@.rpos,
            final(loader)@.rpos <= old(loader)@.data.len(),
            match r {
                Ok(v) => {
                    &&& Self::encodable(v.model())
                    &&& Self::accepts(
                        v.model(),
                        old(loader)@.le,
                        old(loader)@.data.subrange(
                            old(loader)@.rpos as int,
                            final(loader)@.rpos as int,
                        ),
                    )
                },
                Err(_) => !(exists|m: Self::Model, b: Seq<u8>|
                    Self::encodable(m) && Self::accepts(m, old(loader)@.le, b) && old(
                        loader,
                    )@.starts_with(b)),
            },
    ;
}

/// Two encodable models with the same canonical bytes are the same model:
/// an encoding never stands for two values.
pub proof fn lemma_encoding_injective<T: Savable>(m1: T::Model, m2: T::Model, le: bool)
    requires
        T::encodable(m1),
        T::encodable(m2),
        T::encoding(m1, le) == T::encoding(m2, le),
    ensures
        m1 == m2,
{
    T::lemma_encoding_accepted(m1, le);
    T::lemma_encoding_accepted(m2, le);
    T::lemma_accepts_unambiguous(
        m1,
        m2,
        le,
        T::encoding(m1, le),
        T::encoding(m2, le),
        Seq::empty(),
        Seq::empty(),
    );
}

/// Saving a value into a fresh buffer and loading it back yields its model
/// unchanged: the round-trip law, proved once for every savable type.
pub fn save_then_load<T: Savable>(value: &T, le: bool) -> (r: Result<T, String>)
    requires
        T::encodable(value.model()),
    ensures
        r matches Ok(v) && v.model() == value.model(),
{
    let mut buffer = ByteBuffer::with_endian(Vec::new(), le);
    value.save(&mut buffer);
    let ghost enc = T::encoding(value.model(), le);
    proof {
        T::lemma_encoding_accepted(value.model(), le);
        assert(buffer@.data =~= enc);
        assert(buffer@.data.subrange(0, enc.len() as int) =~= enc);
        assert(buffer@.starts_with(enc));
    }
    let ghost before = buffer@;
    let r = T::load(&mut buffer);
    match r {
        Ok(v) => {
            proof {
                let consumed = before.data.subrange(0, buffer@.rpos as int);
                let rest = before.data.subrange(buffer@.rpos as int, before.data.len() as int);
                assert(consumed + rest =~= enc + Seq::<u8>::empty());
                T::lemma_accepts_unambiguous(
                    v.model(),
                    value.model(),
                    le,
                    consumed,
                    enc,
                    rest,
                    Seq::<u8>::empty(),
                );
            }
            Ok(v)
        },
        Err(e) => {
            proof {
                assert(T::encodable(value.model()) && T::accepts(value.model(), le, enc)
                    && before.starts_with(enc));
                assert(false);
            }
            Err(e)
        },
    }
}

impl Savable for u8 {
    type Model = u8;

    open spec fn model(&self) -> u8 {
        *self
    }

    open spec fn encodable(m: u8) -> bool {
        true
    }

    open spec fn encoding(m: u8, le: bool) -> Seq<u8> {
        seq![m]
    }

    open spec fn accepts(m: u8, le: bool, b: Seq<u8>) -> bool {
        b == Self::encoding(m, le)
    }

    proof fn lemma_encoding_accepted(m: u8, le: bool) {
    }

    proof fn lemma_accepts_unambiguous(
        m1: u8,
        m2: u8,
        le: bool,
        b1: Seq<u8>,
        b2: Seq<u8>,
        t1: Seq<u8>,
        t2: Seq<u8>,
    ) {
        lemma_fixed_prefix(b1, b2, t1, t2);
        assert(b1[0] == b2[0]);
    }

    fn save(&self, saver: &mut ByteBuffer) {
        saver.push_u8(*self);
    }

    fn load(loader: &mut ByteBuffer) -> (r: Result<Self, String>) {
        proof {
            loader.lemma_rpos_bound();
        }
        match loader.pop_u8() {
            Some(v) => {
                proof {
                    assert(old(loader)@.data.subrange(
                        old(loader)@.rpos as int,
                        old(loader)@.rpos as int + 1,
                    ) =~= seq![v]);
                }
                Ok(v)
            },
            None => {
                proof {
                    assert forall|m: u8, b: Seq<u8>|
                        Self::accepts(m, old(loader)@.le, b) && old(loader)@.starts_with(
                            b,
                        ) implies false by {
                        assert(b.len() == 1);
                    }
                }
                Err("Failed to load u8 from Loader!".to_string())
            },
        }
    }
}

impl Savable for bool {
    type Model = bool;

    open spec fn model(&self) -> bool {
        *self
    }

    open spec fn encodable(m: bool) -> bool {
        true
    }

    open spec fn encoding(m: bool, le: bool) -> Seq<u8> {
        seq![bool_byte(m)]
    }

    open spec fn accepts(m: bool, le: bool, b: Seq<u8>) -> bool {
        b.len() == 1 && m == (b[0] != 0)
    }

    proof fn lemma_encoding_accepted(m: bool, le: bool) {
    }

    proof fn lemma_accepts_unambiguous(
        m1: bool,
        m2: bool,
        le: bool,
        b1: Seq<u8>,
        b2: Seq<u8>,
        t1: Seq<u8>,
        t2: Seq<u8>,
    ) {
        lemma_fixed_prefix(b1, b2, t1, t2);
        assert(b1[0] == b2[0]);
    }

    fn save(&self, saver: &mut ByteBuffer) {
        saver.push_bool(*self);
    }

    fn load(loader: &mut ByteBuffer) -> (r: Result<Self, String>) {
        proof {
            loader.lemma_rpos_bound();
        }
        match loader.pop_bool() {
            Some(v) => {
                proof {
                    assert(old(loader)@.data.subrange(
                        old(loader)@.rpos as int,
                        old(loader)@.rpos as int + 1,
                    ).len() == 1);
                }
                Ok(v)
            },
            None => {
                proof {
                    assert forall|m: bool, b: Seq<u8>|
                        Self::accepts(m, old(loader)@.le, b) && old(loader)@.starts_with(
                            b,
                        ) implies false by {
                        assert(b.len() == 1);
                    }
                }
                Err("Failed to load bool from Loader!".to_string())
            },
        }
    }
}

impl Savable for u16 {
    type Model = u16;

    open spec fn model(&self) -> u16 {
        *self
    }

    open spec fn encodable(m: u16) -> bool {
        true
    }

    open spec fn encoding(m: u16, le: bool) -> Seq<u8> {
        bytes2(m, le)
    }

    open spec fn accepts(m: u16, le: bool, b: Seq<u8>) -> bool {
        b == Self::encoding(m, le)
    }

    proof fn lemma_encoding_accepted(m: u16, le: bool) {
    }

    proof fn lemma_accepts_unambiguous(
        m1: u16,
        m2: u16,
        le: bool,
        b1: Seq<u8>,
        b2: Seq<u8>,
        t1: Seq<u8>,
        t2: Seq<u8>,
    ) {
        lemma_fixed_prefix(b1, b2, t1, t2);
        crate::wire::lemma_bytes2_injective(m1, m2, le);
    }

    fn save(&self, saver: &mut ByteBuffer) {
        saver.push_u16(*self);
    }

    fn load(loader: &mut ByteBuffer) -> (r: Result<Self, String>) {
        proof {
            loader.lemma_rpos_bound();
        }
        match loader.pop_u16() {
            Some(v) => Ok(v),
            None => {
                proof {
                    assert forall|m: u16, b: Seq<u8>|
                        Self::accepts(m, old(loader)@.le, b) && old(loader)@.starts_with(
                            b,
                        ) implies false by {
                        assert(b.len() == 2);
                    }
                }
                Err("Failed to load u16 from Loader!".to_string())
            },
        }
    }
}

impl Savable for u32 {
    type Model = u32;

    open spec fn model(&self) -> u32 {
        *self
    }

    open spec fn encodable(m: u32) -> bool {
        true
    }

    open spec fn encoding(m: u32, le: bool) -> Seq<u8> {
        bytes4(m, le)
    }

    open spec fn accepts(m: u32, le: bool, b: Seq<u8>) -> bool {
        b == Self::encoding(m, le)
    }

    proof fn lemma_encoding_accepted(m: u32, le: bool) {
    }

    proof fn lemma_accepts_unambiguous(
        m1: u32,
        m2: u32,
        le: bool,
        b1: Seq<u8>,
        b2: Seq<u8>,
        t1: Seq<u8>,
        t2: Seq<u8>,
    ) {
        lemma_fixed_prefix(b1, b2, t1, t2);
        crate::wire::lemma_bytes4_injective(m1, m2, le);
    }

    fn save(&self, saver: &mut ByteBuffer) {
        saver.push_u32(*self);
    }

    fn load(loader: &mut ByteBuffer) -> (r: Result<Self, String>) {
        proof {
            loader.lemma_rpos_bound();
        }
        match loader.pop_u32() {
            Some(v) => Ok(v),
            None => {
                proof {
                    assert forall|m: u32, b: Seq<u8>|
                        Self::accepts(m, old(loader)@.le, b) && old(loader)@.starts_with(
                            b,
                        ) implies false by {
                        assert(b.len() == 4);
                    }
                }
                Err("Failed to load u32 from Loader!".to_string())
            },
        }
    }
}

impl Savable for u64 {
    type Model = u64;

    open spec fn model(&self) -> u64 {
        *self
    }

    open spec fn encodable(m: u64) -> bool {
        true
    }

    open spec fn encoding(m: u64, le: bool) -> Seq<u8> {
        bytes8(m, le)
    }

    open spec fn accepts(m: u64, le: bool, b: Seq<u8>) -> bool {
        b == Self::encoding(m, le)
    }

    proof fn lemma_encoding_accepted(m: u64, le: bool) {
    }

    proof fn lemma_accepts_unambiguous(
        m1: u64,
        m2: u64,
        le: bool,
        b1: Seq<u8>,
        b2: Seq<u8>,
        t1: Seq<u8>,
        t2: Seq<u8>,
    ) {
        lemma_fixed_prefix(b1, b2, t1, t2);
        crate::wire::lemma_bytes8_injective(m1, m2, le);
    }

    fn save(&self, saver: &mut ByteBuffer) {
        saver.push_u64(*self);
    }

    fn load(loader: &mut ByteBuffer) -> (r: Result<Self, String>) {
        proof {
            loader.lemma_rpos_bound();
        }
        match loader.pop_u64() {
            Some(v) => Ok(v),
            None => {
                proof {
                    assert forall|m: u64, b: Seq<u8>|
                        Self::accepts(m, old(loader)@.le, b) && old(loader)@.starts_with(
                            b,
                        ) implies false by {
                        assert(b.len() == 8);
                    }
                }
                Err("Failed to load u64 from Loader!".to_string())
            },
        }
    }
}

impl Savable for i8 {
    type Model = i8;

    open spec fn model(&self) -> i8 {
        *self
    }

    open spec fn encodable(m: i8) -> bool {
        true
    }

    open spec fn encoding(m: i8, le: bool) -> Seq<u8> {
        seq![u8_of_i8(m)]
    }

    open spec fn accepts(m: i8, le: bool, b: Seq<u8>) -> bool {
        b == Self::encoding(m, le)
    }

    proof fn lemma_encoding_accepted(m: i8, le: bool) {
    }

    proof fn lemma_accepts_unambiguous(
        m1: i8,
        m2: i8,
        le: bool,
        b1: Seq<u8>,
        b2: Seq<u8>,
        t1: Seq<u8>,
        t2: Seq<u8>,
    ) {
        lemma_fixed_prefix(b1, b2, t1, t2);
        assert(b1[0] == b2[0]);
        crate::wire::lemma_u8_of_i8_injective(m1, m2);
    }

    fn save(&self, saver: &mut ByteBuffer) {
        saver.push_i8(*self);
    }

    fn load(loader: &mut ByteBuffer) -> (r: Result<Self, String>) {
        proof {
            loader.lemma_rpos_bound();
        }
        match loader.pop_i8() {
            Some(v) => {
                proof {
                    assert(old(loader)@.data.subrange(
                        old(loader)@.rpos as int,
                        old(loader)@.rpos as int + 1,
                    ) =~= seq![u8_of_i8(v)]);
                }
                Ok(v)
            },
            None => {
                proof {
                    assert forall|m: i8, b: Seq<u8>|
                        Self::accepts(m, old(loader)@.le, b) && old(loader)@.starts_with(
                            b,
                        ) implies false by {
                        assert(b.len() == 1);
                    }
                }
                Err("Failed to load i8 from Loader!".to_string())
            },
        }
    }
}

impl Savable for i16 {
    type Model = i16;

    open spec fn model(&self) -> i16 {
        *self
    }

    open spec fn encodable(m: i16) -> bool {
        true
    }

    open spec fn encoding(m: i16, le: bool) -> Seq<u8> {
        bytes2(u16_of_i16(m), le)
    }

    open spec fn accepts(m: i16, le: bool, b: Seq<u8>) -> bool {
        b == Self::encoding(m, le)
    }

    proof fn lemma_encoding_accepted(m: i16, le: bool) {
    }

    proof fn lemma_accepts_unambiguous(
        m1: i16,
        m2: i16,
        le: bool,
        b1: Seq<u8>,
        b2: Seq<u8>,
        t1: Seq<u8>,
        t2: Seq<u8>,
    ) {
        lemma_fixed_prefix(b1, b2, t1, t2);
        crate::wire::lemma_bytes2_injective(u16_of_i16(m1), u16_of_i16(m2), le);
        crate::wire::lemma_u16_of_i16_injective(m1, m2);
    }

    fn save(&self, saver: &mut ByteBuffer) {
        saver.push_i16(*self);
    }

    fn load(loader: &mut ByteBuffer) -> (r: Result<Self, String>) {
        proof {
            loader.lemma_rpos_bound();
        }
        match loader.pop_i16() {
            Some(v) => Ok(v),
            None => {
                proof {
                    assert forall|m: i16, b: Seq<u8>|
                        Self::accepts(m, old(loader)@.le, b) && old(loader)@.starts_with(
                            b,
                        ) implies false by {
                        assert(b.len() == 2);
                    }
                }
                Err("Failed to load i16 from Loader!".to_string())
            },
        }
    }
}

impl Savable for i32 {
    type Model = i32;

    open spec fn model(&self) -> i32 {
        *self
    }

    open spec fn encodable(m: i32) -> bool {
        true
    }

    open spec fn encoding(m: i32, le: bool) -> Seq<u8> {
        bytes4(u32_of_i32(m), le)
    }

    open spec fn accepts(m: i32, le: bool, b: Seq<u8>) -> bool {
        b == Self::encoding(m, le)
    }

    proof fn lemma_encoding_accepted(m: i32, le: bool) {
    }

    proof fn lemma_accepts_unambiguous(
        m1: i32,
        m2: i32,
        le: bool,
        b1: Seq<u8>,
        b2: Seq<u8>,
        t1: Seq<u8>,
        t2: Seq<u8>,
    ) {
        lemma_fixed_prefix(b1, b2, t1, t2);
        crate::wire::lemma_bytes4_injective(u32_of_i32(m1), u32_of_i32(m2), le);
        crate::wire::lemma_u32_of_i32_injective(m1, m2);
    }

    fn save(&self, saver: &mut ByteBuffer) {
        saver.push_i32(*self);
    }

    fn load(loader: &mut ByteBuffer) -> (r: Result<Self, String>) {
        proof {
            loader.lemma_rpos_bound();
        }
        match loader.pop_i32() {
            Some(v) => Ok(v),
            None => {
                proof {
                    assert forall|m: i32, b: Seq<u8>|
                        Self::accepts(m, old(loader)@.le, b) && old(loader)@.starts_with(
                            b,
                        ) implies false by {
                        assert(b.len() == 4);
                    }
                }
                Err("Failed to load i32 from Loader!".to_string())
            },
        }
    }
}

impl Savable for i64 {
    type Model = i64;

    open spec fn model(&self) -> i64 {
        *self
    }

    open spec fn encodable(m: i64) -> bool {
        true
    }

    open spec fn encoding(m: i64, le: bool) -> Seq<u8> {
        bytes8(u64_of_i64(m), le)
    }

    open spec fn accepts(m: i64, le: bool, b: Seq<u8>) -> bool {
        b == Self::encoding(m, le)
    }

    proof fn lemma_encoding_accepted(m: i64, le: bool) {
    }

    proof fn lemma_accepts_unambiguous(
        m1: i64,
        m2: i64,
        le: bool,
        b1: Seq<u8>,
        b2: Seq<u8>,
        t1: Seq<u8>,
        t2: Seq<u8>,
    ) {
        lemma_fixed_prefix(b1, b2, t1, t2);
        crate::wire::lemma_bytes8_injective(u64_of_i64(m1), u64_of_i64(m2), le);
        crate::wire::lemma_u64_of_i64_injective(m1, m2);
    }

    fn save(&self, saver: &mut ByteBuffer) {
        saver.push_i64(*self);
    }

    fn load(loader: &mut ByteBuffer) -> (r: Result<Self, String>) {
        proof {
            loader.lemma_rpos_bound();
        }
        match loader.pop_i64() {
            Some(v) => Ok(v),
            None => {
                proof {
                    assert forall|m: i64, b: Seq<u8>|
                        Self::accepts(m, old(loader)@.le, b) && old(loader)@.starts_with(
                            b,
                        ) implies false by {
                        assert(b.len() == 8);
                    }
                }
                Err("Failed to load i64 from Loader!".to_string())
            },
        }
    }
}

impl Savable for usize {
    type Model = usize;

    open spec fn model(&self) -> usize {
        *self
    }

    open spec fn encodable(m: usize) -> bool {
        true
    }

    open spec fn encoding(m: usize, le: bool) -> Seq<u8> {
        varint_enc(m as nat)
    }

    open spec fn accepts(m: usize, le: bool, b: Seq<u8>) -> bool {
        crate::varint::varint_fits(b, crate::varint::usize_bits()) && varint_value(b) == m as nat
    }

    proof fn lemma_encoding_accepted(m: usize, le: bool) {
        crate::varint::lemma_usize_width();
        crate::varint::lemma_varint_enc_fits(m as nat, crate::varint::usize_bits());
        crate::varint::lemma_varint_enc_ok(m as nat);
    }

    proof fn lemma_accepts_unambiguous(
        m1: usize,
        m2: usize,
        le: bool,
        b1: Seq<u8>,
        b2: Seq<u8>,
        t1: Seq<u8>,
        t2: Seq<u8>,
    ) {
        crate::varint::lemma_varint_frame_unambiguous(b1, b2, t1, t2);
    }

    fn save(&self, saver: &mut ByteBuffer) {
        varint_write(saver, *self as u64);
    }

    fn load(loader: &mut ByteBuffer) -> (r: Result<Self, String>) {
        proof {
            loader.lemma_rpos_bound();
            crate::varint::lemma_usize_width();
        }
        let bits: u64 = usize::BITS as u64;
        match varint_read(loader, bits) {
            Ok(u) => {
                proof {
                    vstd::arithmetic::power2::lemma2_to64();
                }
                Ok(u as usize)
            },
            Err(_) => Err("Failed to load usize: Incompatible system bitness".to_string()),
        }
    }
}

impl Savable for isize {
    type Model = isize;

    open spec fn model(&self) -> isize {
        *self
    }

    open spec fn encodable(m: isize) -> bool {
        true
    }

    open spec fn encoding(m: isize, le: bool) -> Seq<u8> {
        varint_enc(zigzag(m as int))
    }

    open spec fn accepts(m: isize, le: bool, b: Seq<u8>) -> bool {
        crate::varint::varint_fits(b, crate::varint::usize_bits()) && varint_value(b) == zigzag(
            m as int,
        )
    }

    proof fn lemma_encoding_accepted(m: isize, le: bool) {
        crate::varint::lemma_usize_width();
        let half = pow2((crate::varint::usize_bits() - 1) as nat);
        assert(pow2(crate::varint::usize_bits()) == 2 * half) by {
            vstd::arithmetic::power2::lemma_pow2_unfold(crate::varint::usize_bits());
        }
        assert(zigzag(m as int) < pow2(crate::varint::usize_bits()));
        crate::varint::lemma_varint_enc_fits(zigzag(m as int), crate::varint::usize_bits());
        crate::varint::lemma_varint_enc_ok(zigzag(m as int));
    }

    proof fn lemma_accepts_unambiguous(
        m1: isize,
        m2: isize,
        le: bool,
        b1: Seq<u8>,
        b2: Seq<u8>,
        t1: Seq<u8>,
        t2: Seq<u8>,
    ) {
        crate::varint::lemma_varint_frame_unambiguous(b1, b2, t1, t2);
    }

    fn save(&self, saver: &mut ByteBuffer) {
        varint_write_signed(saver, *self as i64);
    }

    fn load(loader: &mut ByteBuffer) -> (r: Result<Self, String>) {
        proof {
            loader.lemma_rpos_bound();
            crate::varint::lemma_usize_width();
        }
        let bits: u64 = usize::BITS as u64;
        match varint_read(loader, bits) {
            Ok(u) => {
                proof {
                    vstd::arithmetic::power2::lemma2_to64();
                    vstd::arithmetic::power2::lemma_pow2_unfold(crate::varint::usize_bits());
                }
                let v: i64 = if u % 2 == 0 {
                    (u / 2) as i64
                } else {
                    -((u / 2) as i64) - 1
                };
                assert(zigzag(v as int) == u as nat);
                assert(isize::MIN <= v <= isize::MAX);
                Ok(v as isize)
            },
            Err(_) => Err("Failed to load isize: Incompatible system bitness".to_string()),
        }
    }
}

impl Savable for String {
    type Model = Seq<char>;

    open spec fn model(&self) -> Seq<char> {
        self@
    }

    open spec fn encodable(m: Seq<char>) -> bool {
        vstd::utf8::encode_utf8(m).len() < 0x100000000
    }

    open spec fn encoding(m: Seq<char>, le: bool) -> Seq<u8> {
        bytes4(vstd::utf8::encode_utf8(m).len() as u32, le) + vstd::utf8::encode_utf8(m)
    }

    open spec fn accepts(m: Seq<char>, le: bool, b: Seq<u8>) -> bool {
        Self::encodable(m) && b == Self::encoding(m, le)
    }

    proof fn lemma_encoding_accepted(m: Seq<char>, le: bool) {
    }

    proof fn lemma_accepts_unambiguous(
        m1: Seq<char>,
        m2: Seq<char>,
        le: bool,
        b1: Seq<u8>,
        b2: Seq<u8>,
        t1: Seq<u8>,
        t2: Seq<u8>,
    ) {
        let u1 = vstd::utf8::encode_utf8(m1);
        let u2 = vstd::utf8::encode_utf8(m2);
        lemma_chop(b1, b2, t1, t2, 4);
        assert(b1.take(4) =~= bytes4(u1.len() as u32, le));
        assert(b2.take(4) =~= bytes4(u2.len() as u32, le));
        crate::wire::lemma_bytes4_injective(u1.len() as u32, u2.len() as u32, le);
        assert(u1.len() == u2.len());
        lemma_fixed_prefix(b1, b2, t1, t2);
        assert(b1.skip(4) =~= u1);
        assert(b2.skip(4) =~= u2);
        assert(u1 == u2);
        vstd::utf8::encode_utf8_decode_utf8(m1);
        vstd::utf8::encode_utf8_decode_utf8(m2);
    }

    fn save(&self, saver: &mut ByteBuffer) {
        saver.push_string(self.as_str());
    }

    fn load(loader: &mut ByteBuffer) -> (r: Result<Self, String>) {
        proof {
            loader.lemma_rpos_bound();
        }
        match loader.pop_string() {
            Some(s) => {
                proof {
                    let enc = Self::encoding(s@, old(loader)@.le);
                    assert(old(loader)@.data.subrange(
                        old(loader)@.rpos as int,
                        old(loader)@.rpos as int + enc.len() as int,
                    ) =~= enc);
                }
                Ok(s)
            },
            None => {
                proof {
                    assert forall|m: Seq<char>, b: Seq<u8>|
                        Self::accepts(m, old(loader)@.le, b) && old(loader)@.starts_with(
                            b,
                        ) implies false by {
                        assert(vstd::utf8::encode_utf8(m).len() < 0x100000000);
                    }
                }
                Err("Failed to load String from Loader!".to_string())
            },
        }
    }
}

impl<T: Savable> Savable for Option<T> {
    type Model = Option<T::Model>;

    open spec fn model(&self) -> Option<T::Model> {
        match self {
            Some(t) => Some(t.model()),
            None => None,
        }
    }

    open spec fn encodable(m: Option<T::Model>) -> bool {
        match m {
            Some(x) => T::encodable(x),
            None => true,
        }
    }

    open spec fn encoding(m: Option<T::Model>, le: bool) -> Seq<u8> {
        match m {
            Some(x) => seq![1u8] + T::encoding(x, le),
            None => seq![0u8],
        }
    }

    open spec fn accepts(m: Option<T::Model>, le: bool, b: Seq<u8>) -> bool {
        match m {
            Some(x) => b.len() >= 1 && b[0] == 1u8 && T::accepts(x, le, b.skip(1)),
            None => b == seq![0u8],
        }
    }

    proof fn lemma_encoding_accepted(m: Option<T::Model>, le: bool) {
        match m {
            Some(x) => {
                T::lemma_encoding_accepted(x, le);
                assert(Self::encoding(m, le).skip(1) =~= T::encoding(x, le));
            },
            None => {
            },
        }
    }

    proof fn lemma_accepts_unambiguous(
        m1: Option<T::Model>,
        m2: Option<T::Model>,
        le: bool,
        b1: Seq<u8>,
        b2: Seq<u8>,
        t1: Seq<u8>,
        t2: Seq<u8>,
    ) {
        assert(b1[0] == (b1 + t1)[0]);
        assert(b2[0] == (b2 + t2)[0]);
        match (m1, m2) {
            (None, None) => {
                assert(b1 =~= b2);
            },
            (Some(x1), Some(x2)) => {
                lemma_chop(b1, b2, t1, t2, 1);
                T::lemma_accepts_unambiguous(x1, x2, le, b1.skip(1), b2.skip(1), t1, t2);
                assert(b1.len() == b2.len());
                lemma_fixed_prefix(b1, b2, t1, t2);
            },
            _ => {
            },
        }
    }

    fn save(&self, saver: &mut ByteBuffer) {
        match self {
            None => saver.push_u8(0),
            Some(t) => {
                saver.push_u8(1);
                t.save(saver);
                proof {
                    assert(final(saver)@.data =~= old(saver)@.data + Self::encoding(
                        self.model(),
                        old(saver)@.le,
                    ));
                }
            },
        }
    }

    fn load(loader: &mut ByteBuffer) -> (r: Result<Self, String>) {
        proof {
            loader.lemma_rpos_bound();
        }
        let ghost m0 = old(loader)@;
        match loader.pop_u8() {
            None => {
                proof {
                    assert forall|m: Option<T::Model>, b: Seq<u8>|
                        Self::accepts(m, m0.le, b) && m0.starts_with(b) implies false by {
                        assert(b.len() >= 1);
                    }
                }
                Err("Failed to load Option from Loader!".to_string())
            },
            Some(tag) => {
                if tag == 0 {
                    proof {
                        assert(m0.data.subrange(m0.rpos as int, m0.rpos as int + 1) =~= seq![
                            0u8,
                        ]);
                    }
                    Ok(None)
                } else if tag == 1 {
                    let ghost m1 = loader@;
                    match T::load(loader) {
                        Ok(v) => {
                            proof {
                                let b = m0.data.subrange(m0.rpos as int, loader@.rpos as int);
                                assert(b[0] == 1u8);
                                assert(b.skip(1) =~= m0.data.subrange(
                                    m1.rpos as int,
                                    loader@.rpos as int,
                                ));
                            }
                            Ok(Some(v))
                        },
                        Err(e) => {
                            proof {
                                assert forall|m: Option<T::Model>, b: Seq<u8>|
                                    Self::encodable(m) && Self::accepts(m, m0.le, b)
                                        && m0.starts_with(b) implies false by {
                                    assert(b[0] == m0.data[m0.rpos as int]);
                                    match m {
                                        None => {
                                            assert(b[0] == 0u8);
                                        },
                                        Some(x) => {
                                            let c = b.skip(1);
                                            assert(m1.data.subrange(
                                                m1.rpos as int,
                                                m1.rpos as int + c.len() as int,
                                            ) =~= c);
                                            assert(m1.starts_with(c));
                                            assert(T::encodable(x) && T::accepts(x, m1.le, c)
                                                && m1.starts_with(c));
                                        },
                                    }
                                }
                            }
                            Err(e)
                        },
                    }
                } else {
                    proof {
                        assert forall|m: Option<T::Model>, b: Seq<u8>|
                            Self::accepts(m, m0.le, b) && m0.starts_with(b) implies false by {
                            assert(b[0] == m0.data[m0.rpos as int]);
                        }
                    }
                    Err("Failed to load Option from Loader!".to_string())
                }
            },
        }
    }
}

impl<T: Savable, E: Savable> Savable for Result<T, E> {
    type Model = Result<T::Model, E::Model>;

    open spec fn model(&self) -> Result<T::Model, E::Model> {
        match self {
            Ok(t) => Ok(t.model()),
            Err(e) => Err(e.model()),
        }
    }

    open spec fn encodable(m: Result<T::Model, E::Model>) -> bool {
        match m {
            Ok(x) => T::encodable(x),
            Err(x) => E::encodable(x),
        }
    }

    open spec fn encoding(m: Result<T::Model, E::Model>, le: bool) -> Seq<u8> {
        match m {
            Ok(x) => seq![0u8] + T::encoding(x, le),
            Err(x) => seq![1u8] + E::encoding(x, le),
        }
    }

    open spec fn accepts(m: Result<T::Model, E::Model>, le: bool, b: Seq<u8>) -> bool {
        match m {
            Ok(x) => b.len() >= 1 && b[0] == 0u8 && T::accepts(x, le, b.skip(1)),
            Err(x) => b.len() >= 1 && b[0] == 1u8 && E::accepts(x, le, b.skip(1)),
        }
    }

    proof fn lemma_encoding_accepted(m: Result<T::Model, E::Model>, le: bool) {
        match m {
            Ok(x) => {
                T::lemma_encoding_accepted(x, le);
                assert(Self::encoding(m, le).skip(1) =~= T::encoding(x, le));
            },
            Err(x) => {
                E::lemma_encoding_accepted(x, le);
                assert(Self::encoding(m, le).skip(1) =~= E::encoding(x, le));
            },
        }
    }

    proof fn lemma_accepts_unambiguous(
        m1: Result<T::Model, E::Model>,
        m2: Result<T::Model, E::Model>,
        le: bool,
        b1: Seq<u8>,
        b2: Seq<u8>,
        t1: Seq<u8>,
        t2: Seq<u8>,
    ) {
        assert(b1[0] == (b1 + t1)[0]);
        assert(b2[0] == (b2 + t2)[0]);
        lemma_chop(b1, b2, t1, t2, 1);
        match (m1, m2) {
            (Ok(x1), Ok(x2)) => {
                T::lemma_accepts_unambiguous(x1, x2, le, b1.skip(1), b2.skip(1), t1, t2);
                assert(b1.len() == b2.len());
                lemma_fixed_prefix(b1, b2, t1, t2);
            },
            (Err(x1), Err(x2)) => {
                E::lemma_accepts_unambiguous(x1, x2, le, b1.skip(1), b2.skip(1), t1, t2);
                assert(b1.len() == b2.len());
                lemma_fixed_prefix(b1, b2, t1, t2);
            },
            _ => {
            },
        }
    }

    fn save(&self, saver: &mut ByteBuffer) {
        match self {
            Ok(t) => {
                saver.push_u8(0);
                t.save(saver);
            },
            Err(e) => {
                saver.push_u8(1);
                e.save(saver);
            },
        }
        proof {
            assert(final(saver)@.data =~= old(saver)@.data + Self::encoding(
                self.model(),
                old(saver)@.le,
            ));
        }
    }

    fn load(loader: &mut ByteBuffer) -> (r: Result<Self, String>) {
        proof {
            loader.lemma_rpos_bound();
        }
        let ghost m0 = old(loader)@;
        match loader.pop_u8() {
            None => {
                proof {
                    assert forall|m: Result<T::Model, E::Model>, b: Seq<u8>|
                        Self::accepts(m, m0.le, b) && m0.starts_with(b) implies false by {
                        assert(b.len() >= 1);
                    }
                }
                Err("Failed to load Result from Loader!".to_string())
            },
            Some(tag) => {
                let ghost m1 = loader@;
                if tag == 0 {
                    match T::load(loader) {
                        Ok(v) => {
                            proof {
                                let b = m0.data.subrange(m0.rpos as int, loader@.rpos as int);
                                assert(b[0] == 0u8);
                                assert(b.skip(1) =~= m0.data.subrange(
                                    m1.rpos as int,
                                    loader@.rpos as int,
                                ));
                            }
                            Ok(Ok(v))
                        },
                        Err(e) => {
                            proof {
                                assert forall|m: Result<T::Model, E::Model>, b: Seq<u8>|
                                    Self::encodable(m) && Self::accepts(m, m0.le, b)
                                        && m0.starts_with(b) implies false by {
                                    assert(b[0] == m0.data[m0.rpos as int]);
                                    match m {
                                        Ok(x) => {
                                            let c = b.skip(1);
                                            assert(m1.data.subrange(
                                                m1.rpos as int,
                                                m1.rpos as int + c.len() as int,
                                            ) =~= c);
                                            assert(T::encodable(x) && T::accepts(x, m1.le, c)
                                                && m1.starts_with(c));
                                        },
                                        Err(_) => {
                                            assert(b[0] == 1u8);
                                        },
                                    }
                                }
                            }
                            Err(e)
                        },
                    }
                } else if tag == 1 {
                    match E::load(loader) {
                        Ok(v) => {
                            proof {
                                let b = m0.data.subrange(m0.rpos as int, loader@.rpos as int);
                                assert(b[0] == 1u8);
                                assert(b.skip(1) =~= m0.data.subrange(
                                    m1.rpos as int,
                                    loader@.rpos as int,
                                ));
                            }
                            Ok(Err(v))
                        },
                        Err(e) => {
                            proof {
                                assert forall|m: Result<T::Model, E::Model>, b: Seq<u8>|
                                    Self::encodable(m) && Self::accepts(m, m0.le, b)
                                        && m0.starts_with(b) implies false by {
                                    assert(b[0] == m0.data[m0.rpos as int]);
                                    match m {
                                        Err(x) => {
                                            let c = b.skip(1);
                                            assert(m1.data.subrange(
                                                m1.rpos as int,
                                                m1.rpos as int + c.len() as int,
                                            ) =~= c);
                                            assert(E::encodable(x) && E::accepts(x, m1.le, c)
                                                && m1.starts_with(c));
                                        },
                                        Ok(_) => {
                                            assert(b[0] == 0u8);
                                        },
                                    }
                                }
                            }
                            Err(e)
                        },
                    }
                } else {
                    proof {
                        assert forall|m: Result<T::Model, E::Model>, b: Seq<u8>|
                            Self::accepts(m, m0.le, b) && m0.starts_with(b) implies false by {
                            assert(b[0] == m0.data[m0.rpos as int]);
                        }
                    }
                    Err("Failed to load Result from Loader!".to_string())
                }
            },
        }
    }
}

impl<T: Savable> Savable for Box<T> {
    type Model = T::Model;

    open spec fn model(&self) -> T::Model {
        (**self).model()
    }

    open spec fn encodable(m: T::Model) -> bool {
        T::encodable(m)
    }

    open spec fn encoding(m: T::Model, le: bool) -> Seq<u8> {
        T::encoding(m, le)
    }

    open spec fn accepts(m: T::Model, le: bool, b: Seq<u8>) -> bool {
        T::accepts(m, le, b)
    }

    proof fn lemma_encoding_accepted(m: T::Model, le: bool) {
        T::lemma_encoding_accepted(m, le);
    }

    proof fn lemma_accepts_unambiguous(
        m1: T::Model,
        m2: T::Model,
        le: bool,
        b1: Seq<u8>,
        b2: Seq<u8>,
        t1: Seq<u8>,
        t2: Seq<u8>,
    ) {
        T::lemma_accepts_unambiguous(m1, m2, le, b1, b2, t1, t2);
    }

    fn save(&self, saver: &mut ByteBuffer) {
        (**self).save(saver);
    }

    fn load(loader: &mut ByteBuffer) -> (r: Result<Self, String>) {
        match T::load(loader) {
            Ok(v) => Ok(Box::new(v)),
            Err(e) => Err(e),
        }
    }
}

/// A span of time on the wire: whole seconds and the nanoseconds within
/// the current second, as the stream stores any duration-like value.
#[derive(Eq, PartialEq, Copy, Clone, Debug, Structural)]
pub struct Duration {
    pub secs: u64,
    pub nanos: u32,
}

impl Savable for Duration {
    type Model = Duration;

    open spec fn model(&self) -> Duration {
        *self
    }

    open spec fn encodable(m: Duration) -> bool {
        true
    }

    open spec fn encoding(m: Duration, le: bool) -> Seq<u8> {
        bytes8(m.secs, le) + bytes4(m.nanos, le)
    }

    open spec fn accepts(m: Duration, le: bool, b: Seq<u8>) -> bool {
        b == Self::encoding(m, le)
    }

    proof fn lemma_encoding_accepted(m: Duration, le: bool) {
    }

    #[verifier::rlimit(50)]
    proof fn lemma_accepts_unambiguous(
        m1: Duration,
        m2: Duration,
        le: bool,
        b1: Seq<u8>,
        b2: Seq<u8>,
        t1: Seq<u8>,
        t2: Seq<u8>,
    ) {
        lemma_fixed_prefix(b1, b2, t1, t2);
        assert(bytes8(m1.secs, le) =~= b1.subrange(0, 8)) by {
            assert(forall|i: int| 0 <= i < 8 ==> b1[i] == bytes8(m1.secs, le)[i]);
        }
        assert(bytes8(m2.secs, le) =~= b2.subrange(0, 8)) by {
            assert(forall|i: int| 0 <= i < 8 ==> b2[i] == bytes8(m2.secs, le)[i]);
        }
        assert(bytes4(m1.nanos, le) =~= b1.subrange(8, 12)) by {
            assert(forall|i: int| 0 <= i < 4 ==> b1[i + 8] == bytes4(m1.nanos, le)[i]);
        }
        assert(bytes4(m2.nanos, le) =~= b2.subrange(8, 12)) by {
            assert(forall|i: int| 0 <= i < 4 ==> b2[i + 8] == bytes4(m2.nanos, le)[i]);
        }
        crate::wire::lemma_bytes8_injective(m1.secs, m2.secs, le);
        crate::wire::lemma_bytes4_injective(m1.nanos, m2.nanos, le);
    }

    fn save(&self, saver: &mut ByteBuffer) {
        saver.push_u64(self.secs);
        saver.push_u32(self.nanos);
        proof {
            assert(final(saver)@.data =~= old(saver)@.data + Self::encoding(
                *self,
                old(saver)@.le,
            ));
        }
    }

    fn load(loader: &mut ByteBuffer) -> (r: Result<Self, String>) {
        proof {
            loader.lemma_rpos_bound();
        }
        let ghost m0 = old(loader)@;
        let secs = match loader.pop_u64() {
            Some(v) => v,
            None => {
                proof {
                    assert forall|m: Duration, b: Seq<u8>|
                        Self::accepts(m, m0.le, b) && m0.starts_with(b) implies false by {
                        assert(b.len() == 12);
                    }
                }
                return Err("Failed to load Duration from Loader!".to_string());
            },
        };
        let nanos = match loader.pop_u32() {
            Some(v) => v,
            None => {
                proof {
                    assert forall|m: Duration, b: Seq<u8>|
                        Self::accepts(m, m0.le, b) && m0.starts_with(b) implies false by {
                        assert(b.len() == 12);
                    }
                }
                return Err("Failed to load Duration from Loader!".to_string());
            },
        };
        let d = Duration { secs, nanos };
        proof {
            assert(m0.data.subrange(m0.rpos as int, m0.rpos as int + 12) =~= Self::encoding(
                d,
                m0.le,
            ));
        }
        Ok(d)
    }
}


impl<A: Savable, B: Savable> Savable for (A, B) {
    type Model = (A::Model, B::Model);

    open spec fn model(&self) -> (A::Model, B::Model) {
        (self.0.model(), self.1.model())
    }

    open spec fn encodable(m: (A::Model, B::Model)) -> bool {
        A::encodable(m.0) && B::encodable(m.1)
    }

    open spec fn encoding(m: (A::Model, B::Model), le: bool) -> Seq<u8> {
        A::encoding(m.0, le) + B::encoding(m.1, le)
    }

    open spec fn accepts(m: (A::Model, B::Model), le: bool, b: Seq<u8>) -> bool {
        exists|k: int|
            0 <= k <= b.len() && A::accepts(m.0, le, b.take(k)) && B::accepts(m.1, le, b.skip(k))
    }

    proof fn lemma_encoding_accepted(m: (A::Model, B::Model), le: bool) {
        A::lemma_encoding_accepted(m.0, le);
        B::lemma_encoding_accepted(m.1, le);
        let b = Self::encoding(m, le);
        let k = A::encoding(m.0, le).len() as int;
        assert(b.take(k) =~= A::encoding(m.0, le));
        assert(b.skip(k) =~= B::encoding(m.1, le));
        assert(0 <= k <= b.len() && A::accepts(m.0, le, b.take(k)) && B::accepts(
            m.1,
            le,
            b.skip(k),
        ));
    }

    proof fn lemma_accepts_unambiguous(
        m1: (A::Model, B::Model),
        m2: (A::Model, B::Model),
        le: bool,
        b1: Seq<u8>,
        b2: Seq<u8>,
        t1: Seq<u8>,
        t2: Seq<u8>,
    ) {
        let k1 = choose|k: int|
            0 <= k <= b1.len() && A::accepts(m1.0, le, b1.take(k)) && B::accepts(
                m1.1,
                le,
                b1.skip(k),
            );
        let k2 = choose|k: int|
            0 <= k <= b2.len() && A::accepts(m2.0, le, b2.take(k)) && B::accepts(
                m2.1,
                le,
                b2.skip(k),
            );
        assert(b1.take(k1) + (b1.skip(k1) + t1) =~= b1 + t1);
        assert(b2.take(k2) + (b2.skip(k2) + t2) =~= b2 + t2);
        A::lemma_accepts_unambiguous(
            m1.0,
            m2.0,
            le,
            b1.take(k1),
            b2.take(k2),
            b1.skip(k1) + t1,
            b2.skip(k2) + t2,
        );
        assert(k1 == k2);
        lemma_chop(b1, b2, t1, t2, k1);
        B::lemma_accepts_unambiguous(m1.1, m2.1, le, b1.skip(k1), b2.skip(k2), t1, t2);
        assert(b1 =~= b2) by {
            assert(forall|i: int|
                0 <= i < b1.len() ==> b1[i] == if i < k1 {
                    b1.take(k1)[i]
                } else {
                    b1.skip(k1)[i - k1]
                });
            assert(forall|i: int|
                0 <= i < b2.len() ==> b2[i] == if i < k2 {
                    b2.take(k2)[i]
                } else {
                    b2.skip(k2)[i - k2]
                });
        }
        assert(m1 == m2);
    }

    fn save(&self, saver: &mut ByteBuffer) {
        self.0.save(saver);
        self.1.save(saver);
        proof {
            assert(final(saver)@.data =~= old(saver)@.data + Self::encoding(
                self.model(),
                old(saver)@.le,
            ));
        }
    }

    fn load(loader: &mut ByteBuffer) -> (r: Result<Self, String>) {
        proof {
            loader.lemma_rpos_bound();
        }
        let ghost m0 = old(loader)@;
        let first = match A::load(loader) {
            Ok(a) => a,
            Err(e) => {
                proof {
                    assert forall|m: (A::Model, B::Model), b: Seq<u8>|
                        !(Self::encodable(m) && Self::accepts(m, m0.le, b) && m0.starts_with(
                            b,
                        )) by {
                        if Self::encodable(m) && Self::accepts(m, m0.le, b) && m0.starts_with(b) {
                            let k = choose|k: int|
                                0 <= k <= b.len() && A::accepts(m.0, m0.le, b.take(k))
                                    && B::accepts(m.1, m0.le, b.skip(k));
                            assert(m0.data.subrange(
                                m0.rpos as int,
                                m0.rpos as int + k,
                            ) =~= b.take(k));
                            assert(m0.starts_with(b.take(k)));
                            assert(A::encodable(m.0) && A::accepts(m.0, m0.le, b.take(k))
                                && m0.starts_with(b.take(k)));
                        }
                    }
                }
                return Err(e);
            },
        };
        let ghost m1 = loader@;
        let ghost ca = m0.data.subrange(m0.rpos as int, m1.rpos as int);
        let second = match B::load(loader) {
            Ok(b) => b,
            Err(e) => {
                proof {
                    assert forall|m: (A::Model, B::Model), b: Seq<u8>|
                        !(Self::encodable(m) && Self::accepts(m, m0.le, b) && m0.starts_with(
                            b,
                        )) by {
                        if Self::encodable(m) && Self::accepts(m, m0.le, b) && m0.starts_with(b) {
                            let k = choose|k: int|
                                0 <= k <= b.len() && A::accepts(m.0, m0.le, b.take(k))
                                    && B::accepts(m.1, m0.le, b.skip(k));
                            assert(b.take(k) + (b.skip(k) + m0.data.subrange(
                                m0.rpos as int + b.len() as int,
                                m0.data.len() as int,
                            )) =~= m0.data.subrange(m0.rpos as int, m0.data.len() as int));
                            assert(ca + m0.data.subrange(m1.rpos as int, m0.data.len() as int)
                                =~= m0.data.subrange(m0.rpos as int, m0.data.len() as int));
                            A::lemma_accepts_unambiguous(
                                first.model(),
                                m.0,
                                m0.le,
                                ca,
                                b.take(k),
                                m0.data.subrange(m1.rpos as int, m0.data.len() as int),
                                b.skip(k) + m0.data.subrange(
                                    m0.rpos as int + b.len() as int,
                                    m0.data.len() as int,
                                ),
                            );
                            let c = b.skip(k);
                            assert(m1.data.subrange(
                                m1.rpos as int,
                                m1.rpos as int + c.len() as int,
                            ) =~= c) by {
                                assert(ca.len() == k);
                                assert(forall|j: int|
                                    0 <= j < c.len() ==> c[j] == b[k + j] && b[k + j]
                                        == m0.data[m0.rpos + k + j]);
                            }
                            assert(m1.starts_with(c));
                            assert(B::encodable(m.1) && B::accepts(m.1, m1.le, c)
                                && m1.starts_with(c));
                        }
                    }
                }
                return Err(e);
            },
        };
        proof {
            let b = m0.data.subrange(m0.rpos as int, loader@.rpos as int);
            let k = ca.len() as int;
            assert(b.take(k) =~= ca);
            assert(b.skip(k) =~= m0.data.subrange(m1.rpos as int, loader@.rpos as int));
            assert(0 <= k <= b.len() && A::accepts(first.model(), m0.le, b.take(k)) && B::accepts(
                second.model(),
                m0.le,
                b.skip(k),
            ));
        }
        Ok((first, second))
    }
}


/// Reads one value straight out of raw little-endian bytes: the one-call
/// form of building a buffer over them and loading from its start.
pub fn interpret<T: Savable>(bytes: Vec<u8>) -> (r: Result<T, String>)
    ensures
        match r {
            Ok(v) => T::encodable(v.model()) && (exists|n: int|
                0 <= n <= bytes@.len() && T::accepts(v.model(), true, bytes@.subrange(0, n))),
            Err(_) => !(exists|m: T::Model, b: Seq<u8>|
                T::encodable(m) && T::accepts(m, true, b) && b.len() <= bytes@.len()
                    && bytes@.subrange(0, b.len() as int) == b),
        },
{
    let ghost raw = bytes@;
    let mut buffer = ByteBuffer::with_endian(bytes, true);
    let ghost m0 = buffer@;
    let r = T::load(&mut buffer);
    proof {
        match r {
            Ok(ref v) => {
                let n = buffer@.rpos as int;
                assert(raw.subrange(0, n) =~= m0.data.subrange(m0.rpos as int, n));
                assert(0 <= n <= raw.len() && T::accepts(v.model(), true, raw.subrange(0, n)));
            },
            Err(_) => {
                assert forall|m: T::Model, b: Seq<u8>|
                    !(T::encodable(m) && T::accepts(m, true, b) && b.len() <= raw.len()
                        && raw.subrange(0, b.len() as int) == b) by {
                    if T::encodable(m) && T::accepts(m, true, b) && b.len() <= raw.len()
                        && raw.subrange(0, b.len() as int) == b {
                        assert(m0.data.subrange(m0.rpos as int, m0.rpos as int + b.len() as int)
                            =~= raw.subrange(0, b.len() as int));
                        assert(m0.starts_with(b));
                    }
                }
            },
        }
    }
    r
}


impl Savable for ByteBuffer {
    type Model = Seq<u8>;

    open spec fn model(&self) -> Seq<u8> {
        self@.data
    }

    open spec fn encodable(m: Seq<u8>) -> bool {
        m.len() <= usize::MAX
    }

    open spec fn encoding(m: Seq<u8>, le: bool) -> Seq<u8> {
        bytes8(m.len() as u64, le) + m
    }

    open spec fn accepts(m: Seq<u8>, le: bool, b: Seq<u8>) -> bool {
        Self::encodable(m) && b == Self::encoding(m, le)
    }

    proof fn lemma_encoding_accepted(m: Seq<u8>, le: bool) {
    }

    proof fn lemma_accepts_unambiguous(
        m1: Seq<u8>,
        m2: Seq<u8>,
        le: bool,
        b1: Seq<u8>,
        b2: Seq<u8>,
        t1: Seq<u8>,
        t2: Seq<u8>,
    ) {
        lemma_chop(b1, b2, t1, t2, 8);
        assert(b1.take(8) =~= bytes8(m1.len() as u64, le));
        assert(b2.take(8) =~= bytes8(m2.len() as u64, le));
        crate::wire::lemma_bytes8_injective(m1.len() as u64, m2.len() as u64, le);
        assert(m1.len() == m2.len());
        lemma_fixed_prefix(b1, b2, t1, t2);
        assert(b1.skip(8) =~= m1);
        assert(b2.skip(8) =~= m2);
    }

    fn save(&self, saver: &mut ByteBuffer) {
        let n = self.len();
        saver.push_u64(n as u64);
        saver.push_bytes(self.as_bytes());
        proof {
            assert(final(saver)@.data =~= old(saver)@.data + Self::encoding(
                self.model(),
                old(saver)@.le,
            ));
        }
    }

    fn load(loader: &mut ByteBuffer) -> (r: Result<Self, String>) {
        proof {
            loader.lemma_rpos_bound();
        }
        let ghost m0 = old(loader)@;
        match loader.pop_u64() {
            None => {
                proof {
                    assert forall|m: Seq<u8>, b: Seq<u8>|
                        Self::accepts(m, m0.le, b) && m0.starts_with(b) implies false by {
                        assert(b.len() >= 8);
                    }
                }
                Err("Failed to load u64 from Loader!".to_string())
            },
            Some(n) => {
                if n > usize::MAX as u64 {
                    proof {
                        assert forall|m: Seq<u8>, b: Seq<u8>|
                            Self::accepts(m, m0.le, b) && m0.starts_with(b) implies false by {
                            assert(b.take(8) =~= bytes8(m.len() as u64, m0.le));
                            assert(m0.data.subrange(m0.rpos as int, m0.rpos as int + 8)
                                =~= b.take(8));
                            crate::wire::lemma_bytes8_injective(n, m.len() as u64, m0.le);
                        }
                    }
                    return Err("Failed to load ByteBuffer from Loader!".to_string());
                }
                match loader.pop_bytes(n as usize) {
                    None => {
                        proof {
                            assert forall|m: Seq<u8>, b: Seq<u8>|
                                Self::accepts(m, m0.le, b) && m0.starts_with(b) implies false by {
                                assert(b.take(8) =~= bytes8(m.len() as u64, m0.le));
                                assert(m0.data.subrange(m0.rpos as int, m0.rpos as int + 8)
                                    =~= b.take(8));
                                crate::wire::lemma_bytes8_injective(n, m.len() as u64, m0.le);
                                assert(m.len() == n);
                            }
                        }
                        Err("Failed to load ByteBuffer from Loader!".to_string())
                    },
                    Some(bytes) => {
                        let ghost raw = bytes@;
                        let out = ByteBuffer::from_vec(bytes);
                        proof {
                            let b = m0.data.subrange(m0.rpos as int, loader@.rpos as int);
                            assert(b =~= bytes8(raw.len() as u64, m0.le) + raw);
                        }
                        Ok(out)
                    },
                }
            },
        }
    }
}


impl<T: Savable> Savable for core::ops::Range<T> {
    type Model = (T::Model, T::Model);

    open spec fn model(&self) -> (T::Model, T::Model) {
        (self.start.model(), self.end.model())
    }

    open spec fn encodable(m: (T::Model, T::Model)) -> bool {
        T::encodable(m.0) && T::encodable(m.1)
    }

    open spec fn encoding(m: (T::Model, T::Model), le: bool) -> Seq<u8> {
        T::encoding(m.0, le) + T::encoding(m.1, le)
    }

    open spec fn accepts(m: (T::Model, T::Model), le: bool, b: Seq<u8>) -> bool {
        exists|k: int|
            0 <= k <= b.len() && T::accepts(m.0, le, b.take(k)) && T::accepts(m.1, le, b.skip(k))
    }

    proof fn lemma_encoding_accepted(m: (T::Model, T::Model), le: bool) {
        T::lemma_encoding_accepted(m.0, le);
        T::lemma_encoding_accepted(m.1, le);
        let b = Self::encoding(m, le);
        let k = T::encoding(m.0, le).len() as int;
        assert(b.take(k) =~= T::encoding(m.0, le));
        assert(b.skip(k) =~= T::encoding(m.1, le));
        assert(0 <= k <= b.len() && T::accepts(m.0, le, b.take(k)) && T::accepts(
            m.1,
            le,
            b.skip(k),
        ));
    }

    proof fn lemma_accepts_unambiguous(
        m1: (T::Model, T::Model),
        m2: (T::Model, T::Model),
        le: bool,
        b1: Seq<u8>,
        b2: Seq<u8>,
        t1: Seq<u8>,
        t2: Seq<u8>,
    ) {
        let k1 = choose|k: int|
            0 <= k <= b1.len() && T::accepts(m1.0, le, b1.take(k)) && T::accepts(
                m1.1,
                le,
                b1.skip(k),
            );
        let k2 = choose|k: int|
            0 <= k <= b2.len() && T::accepts(m2.0, le, b2.take(k)) && T::accepts(
                m2.1,
                le,
                b2.skip(k),
            );
        assert(b1.take(k1) + (b1.skip(k1) + t1) =~= b1 + t1);
        assert(b2.take(k2) + (b2.skip(k2) + t2) =~= b2 + t2);
        T::lemma_accepts_unambiguous(
            m1.0,
            m2.0,
            le,
            b1.take(k1),
            b2.take(k2),
            b1.skip(k1) + t1,
            b2.skip(k2) + t2,
        );
        assert(k1 == k2);
        lemma_chop(b1, b2, t1, t2, k1);
        T::lemma_accepts_unambiguous(m1.1, m2.1, le, b1.skip(k1), b2.skip(k2), t1, t2);
        assert(b1 =~= b2) by {
            assert(forall|i: int|
                0 <= i < b1.len() ==> b1[i] == if i < k1 {
                    b1.take(k1)[i]
                } else {
                    b1.skip(k1)[i - k1]
                });
            assert(forall|i: int|
                0 <= i < b2.len() ==> b2[i] == if i < k2 {
                    b2.take(k2)[i]
                } else {
                    b2.skip(k2)[i - k2]
                });
        }
        assert(m1 == m2);
    }

    fn save(&self, saver: &mut ByteBuffer) {
        self.start.save(saver);
        self.end.save(saver);
        proof {
            assert(final(saver)@.data =~= old(saver)@.data + Self::encoding(
                self.model(),
                old(saver)@.le,
            ));
        }
    }

    fn load(loader: &mut ByteBuffer) -> (r: Result<Self, String>) {
        match <(T, T)>::load(loader) {
            Ok(pair) => {
                let (start, end) = pair;
                Ok(core::ops::Range { start, end })
            },
            Err(e) => {
                proof {
                    assert forall|m: (T::Model, T::Model), b: Seq<u8>|
                        !(Self::encodable(m) && Self::accepts(m, old(loader)@.le, b) && old(
                            loader,
                        )@.starts_with(b)) by {
                        if Self::encodable(m) && Self::accepts(m, old(loader)@.le, b) && old(
                            loader,
                        )@.starts_with(b) {
                            assert(<(T, T) as Savable>::encodable(m) && <(T, T) as Savable>::accepts(
                                m,
                                old(loader)@.le,
                                b,
                            ) && old(loader)@.starts_with(b));
                        }
                    }
                }
                Err(e)
            },
        }
    }
}

/// The canonical bytes of a sequence of models, element after element.
pub open spec fn seq_encoding<T: Savable>(m: Seq<T::Model>, le: bool) -> Seq<u8>
    decreases m.len(),
{
    if m.len() == 0 {
        Seq::empty()
    } else {
        T::encoding(m[0], le) + seq_encoding::<T>(m.drop_first(), le)
    }
}

/// Every element of the sequence can be written.
pub open spec fn seq_encodable<T: Savable>(m: Seq<T::Model>) -> bool {
    forall|i: int| 0 <= i < m.len() ==> T::encodable(#[trigger] m[i])
}

/// The byte sequences that read back as the given sequence of models: one
/// accepted chunk per element, in order.
#[verifier::opaque]
pub open spec fn seq_accepts<T: Savable>(m: Seq<T::Model>, le: bool, b: Seq<u8>) -> bool
    decreases m.len(),
{
    if m.len() == 0 {
        b.len() == 0
    } else {
        exists|k: int|
            0 <= k <= b.len() && T::accepts(m[0], le, b.take(k)) && seq_accepts::<T>(
                m.drop_first(),
                le,
                b.skip(k),
            )
    }
}

/// Appending one element appends its canonical encoding.
pub proof fn lemma_seq_encoding_snoc<T: Savable>(m: Seq<T::Model>, x: T::Model, le: bool)
    ensures
        seq_encoding::<T>(m.push(x), le) == seq_encoding::<T>(m, le) + T::encoding(x, le),
    decreases m.len(),
{
    if m.len() == 0 {
        assert(m.push(x)[0] == x);
        assert(m.push(x).drop_first() =~= Seq::<T::Model>::empty());
        assert(seq_encoding::<T>(m, le) =~= Seq::<u8>::empty());
        assert(seq_encoding::<T>(Seq::<T::Model>::empty(), le) =~= Seq::<u8>::empty());
        assert(seq_encoding::<T>(m.push(x), le) == T::encoding(x, le) + seq_encoding::<T>(
            m.push(x).drop_first(),
            le,
        ));
        assert(seq_encoding::<T>(m.push(x), le) =~= seq_encoding::<T>(m, le) + T::encoding(
            x,
            le,
        ));
    } else {
        assert(m.push(x).drop_first() =~= m.drop_first().push(x));
        assert(m.push(x)[0] == m[0]);
        lemma_seq_encoding_snoc::<T>(m.drop_first(), x, le);
        assert(seq_encoding::<T>(m.push(x), le) == T::encoding(m[0], le) + (seq_encoding::<T>(
            m.drop_first(),
            le,
        ) + T::encoding(x, le)));
        assert(T::encoding(m[0], le) + (seq_encoding::<T>(m.drop_first(), le) + T::encoding(
            x,
            le,
        )) =~= (T::encoding(m[0], le) + seq_encoding::<T>(m.drop_first(), le)) + T::encoding(
            x,
            le,
        ));
    }
}

/// Appending one element and an accepted chunk for it keeps the whole
/// accepted.
pub proof fn lemma_seq_accepts_snoc<T: Savable>(
    m: Seq<T::Model>,
    x: T::Model,
    le: bool,
    b: Seq<u8>,
    c: Seq<u8>,
)
    requires
        seq_accepts::<T>(m, le, b),
        T::accepts(x, le, c),
    ensures
        seq_accepts::<T>(m.push(x), le, b + c),
    decreases m.len(),
{
    reveal(seq_accepts);
    if m.len() == 0 {
        assert(b + c =~= c);
        assert(m.push(x)[0] == x);
        assert(m.push(x).drop_first() =~= Seq::<T::Model>::empty());
        let k = c.len() as int;
        assert((b + c).take(k) =~= c);
        assert((b + c).skip(k) =~= Seq::<u8>::empty());
        assert(seq_accepts::<T>(m.push(x).drop_first(), le, (b + c).skip(k)));
        assert(0 <= k <= (b + c).len() && T::accepts(m.push(x)[0], le, (b + c).take(k))
            && seq_accepts::<T>(m.push(x).drop_first(), le, (b + c).skip(k)));
        assert(seq_accepts::<T>(m.push(x), le, b + c));
    } else {
        let k = choose|k: int|
            0 <= k <= b.len() && T::accepts(m[0], le, b.take(k)) && seq_accepts::<T>(
                m.drop_first(),
                le,
                b.skip(k),
            );
        lemma_seq_accepts_snoc::<T>(m.drop_first(), x, le, b.skip(k), c);
        assert(m.push(x).drop_first() =~= m.drop_first().push(x));
        assert(m.push(x)[0] == m[0]);
        assert((b + c).take(k) =~= b.take(k));
        assert((b + c).skip(k) =~= b.skip(k) + c);
        assert(0 <= k <= (b + c).len() && T::accepts(m.push(x)[0], le, (b + c).take(k))
            && seq_accepts::<T>(m.push(x).drop_first(), le, (b + c).skip(k)));
        assert(seq_accepts::<T>(m.push(x), le, b + c));
    }
}

/// The canonical encoding of an encodable sequence is accepted.
pub proof fn lemma_seq_encoding_accepted<T: Savable>(m: Seq<T::Model>, le: bool)
    requires
        seq_encodable::<T>(m),
    ensures
        seq_accepts::<T>(m, le, seq_encoding::<T>(m, le)),
    decreases m.len(),
{
    reveal(seq_accepts);
    if m.len() == 0 {
    } else {
        let e0 = T::encoding(m[0], le);
        let b = seq_encoding::<T>(m, le);
        T::lemma_encoding_accepted(m[0], le);
        assert(seq_encodable::<T>(m.drop_first())) by {
            assert(forall|i: int|
                0 <= i < m.drop_first().len() ==> m.drop_first()[i] == m[i + 1]);
        }
        lemma_seq_encoding_accepted::<T>(m.drop_first(), le);
        let k = e0.len() as int;
        assert(b.take(k) =~= e0);
        assert(b.skip(k) =~= seq_encoding::<T>(m.drop_first(), le));
    }
}

/// Two accepted chunk streams for equally long sequences that open the same
/// bytes carry the same models in the same bytes.
pub proof fn lemma_seq_accepts_unambiguous<T: Savable>(
    m1: Seq<T::Model>,
    m2: Seq<T::Model>,
    le: bool,
    b1: Seq<u8>,
    b2: Seq<u8>,
    t1: Seq<u8>,
    t2: Seq<u8>,
)
    requires
        seq_encodable::<T>(m1),
        seq_encodable::<T>(m2),
        m1.len() == m2.len(),
        seq_accepts::<T>(m1, le, b1),
        seq_accepts::<T>(m2, le, b2),
        b1 + t1 == b2 + t2,
    ensures
        m1 == m2,
        b1 == b2,
    decreases m1.len(),
{
    reveal(seq_accepts);
    if m1.len() == 0 {
        assert(b1.len() == 0 && b2.len() == 0);
        assert(b1 =~= b2);
        assert(m1 =~= m2);
    } else {
        let k1 = choose|k: int|
            0 <= k <= b1.len() && T::accepts(m1[0], le, b1.take(k)) && seq_accepts::<T>(
                m1.drop_first(),
                le,
                b1.skip(k),
            );
        let k2 = choose|k: int|
            0 <= k <= b2.len() && T::accepts(m2[0], le, b2.take(k)) && seq_accepts::<T>(
                m2.drop_first(),
                le,
                b2.skip(k),
            );
        assert(b1.take(k1) + (b1.skip(k1) + t1) =~= b1 + t1);
        assert(b2.take(k2) + (b2.skip(k2) + t2) =~= b2 + t2);
        T::lemma_accepts_unambiguous(
            m1[0],
            m2[0],
            le,
            b1.take(k1),
            b2.take(k2),
            b1.skip(k1) + t1,
            b2.skip(k2) + t2,
        );
        assert(k1 == k2);
        lemma_chop(b1, b2, t1, t2, k1);
        assert(seq_encodable::<T>(m1.drop_first())) by {
            assert(forall|i: int|
                0 <= i < m1.drop_first().len() ==> m1.drop_first()[i] == m1[i + 1]);
        }
        assert(seq_encodable::<T>(m2.drop_first())) by {
            assert(forall|i: int|
                0 <= i < m2.drop_first().len() ==> m2.drop_first()[i] == m2[i + 1]);
        }
        lemma_seq_accepts_unambiguous::<T>(
            m1.drop_first(),
            m2.drop_first(),
            le,
            b1.skip(k1),
            b2.skip(k2),
            t1,
            t2,
        );
        assert(m1 =~= m2) by {
            assert(forall|i: int|
                1 <= i < m1.len() ==> m1[i] == m1.drop_first()[i - 1] && m2[i]
                    == m2.drop_first()[i - 1]);
        }
        assert(b1 =~= b2) by {
            assert(forall|i: int|
                0 <= i < b1.len() ==> b1[i] == if i < k1 {
                    b1.take(k1)[i]
                } else {
                    b1.skip(k1)[i - k1]
                });
            assert(forall|i: int|
                0 <= i < b2.len() ==> b2[i] == if i < k2 {
                    b2.take(k2)[i]
                } else {
                    b2.skip(k2)[i - k2]
                });
        }
    }
}

/// An accepted chunk stream splits at any element boundary.
pub proof fn lemma_seq_accepts_chop<T: Savable>(m: Seq<T::Model>, le: bool, b: Seq<u8>, i: int)
    requires
        seq_accepts::<T>(m, le, b),
        0 <= i <= m.len(),
    ensures
        exists|k: int|
            0 <= k <= b.len() && seq_accepts::<T>(m.take(i), le, b.take(k)) && seq_accepts::<T>(
                m.skip(i),
                le,
                b.skip(k),
            ),
    decreases i,
{
    reveal(seq_accepts);
    if i == 0 {
        assert(m.take(0) =~= Seq::<T::Model>::empty());
        assert(m.skip(0) =~= m);
        assert(b.take(0) =~= Seq::<u8>::empty());
        assert(b.skip(0) =~= b);
        assert(seq_accepts::<T>(m.take(0), le, b.take(0)) && seq_accepts::<T>(
            m.skip(0),
            le,
            b.skip(0),
        ));
    } else {
        let k0 = choose|k: int|
            0 <= k <= b.len() && T::accepts(m[0], le, b.take(k)) && seq_accepts::<T>(
                m.drop_first(),
                le,
                b.skip(k),
            );
        lemma_seq_accepts_chop::<T>(m.drop_first(), le, b.skip(k0), i - 1);
        let k = choose|k: int|
            0 <= k <= b.skip(k0).len() && seq_accepts::<T>(
                m.drop_first().take(i - 1),
                le,
                b.skip(k0).take(k),
            ) && seq_accepts::<T>(m.drop_first().skip(i - 1), le, b.skip(k0).skip(k));
        assert(m.take(i)[0] == m[0]);
        assert(m.take(i).drop_first() =~= m.drop_first().take(i - 1));
        assert(m.skip(i) =~= m.drop_first().skip(i - 1));
        assert(b.take(k0 + k).take(k0) =~= b.take(k0));
        assert(b.take(k0 + k).skip(k0) =~= b.skip(k0).take(k));
        assert(b.skip(k0 + k) =~= b.skip(k0).skip(k));
        assert(seq_accepts::<T>(m.take(i), le, b.take(k0 + k))) by {
            assert(0 <= k0 <= b.take(k0 + k).len() && T::accepts(
                m.take(i)[0],
                le,
                b.take(k0 + k).take(k0),
            ) && seq_accepts::<T>(m.take(i).drop_first(), le, b.take(k0 + k).skip(k0)));
        }
        assert(0 <= k0 + k <= b.len() && seq_accepts::<T>(m.take(i), le, b.take(k0 + k))
            && seq_accepts::<T>(m.skip(i), le, b.skip(k0 + k)));
    }
}


/// When loading element `i` of a sequence fails, no whole sequence of the
/// announced length whose accepted chunks open the original stream can
/// exist.
#[verifier::rlimit(60)]
proof fn lemma_elems_load_fails<T: Savable>(
    m0: crate::buffer::BufModel,
    mcur: crate::buffer::BufModel,
    n: u64,
    i: u64,
    vmodel: Seq<T::Model>,
)
    requires
        mcur.data == m0.data,
        mcur.le == m0.le,
        m0.rpos <= mcur.rpos <= m0.data.len(),
        i < n,
        vmodel.len() == i,
        seq_encodable::<T>(vmodel),
        seq_accepts::<T>(vmodel, m0.le, m0.data.subrange(m0.rpos as int, mcur.rpos as int)),
        !(exists|x: T::Model, c: Seq<u8>|
            T::encodable(x) && T::accepts(x, mcur.le, c) && mcur.starts_with(c)),
    ensures
        !(exists|m: Seq<T::Model>, b: Seq<u8>|
            m.len() == n && seq_encodable::<T>(m) && seq_accepts::<T>(m, m0.le, b)
                && m0.starts_with(b)),
{
    reveal(seq_accepts);
    let start1 = m0.rpos;
    let consumed = m0.data.subrange(start1 as int, mcur.rpos as int);
    assert forall|m: Seq<T::Model>, b: Seq<u8>|
        m.len() == n && seq_encodable::<T>(m) && seq_accepts::<T>(m, m0.le, b) && m0.starts_with(
            b,
        ) implies false by {
        lemma_seq_accepts_chop::<T>(m, m0.le, b, i as int);
        let k = choose|k: int|
            0 <= k <= b.len() && seq_accepts::<T>(m.take(i as int), m0.le, b.take(k))
                && seq_accepts::<T>(m.skip(i as int), m0.le, b.skip(k));
        assert(seq_encodable::<T>(m.take(i as int))) by {
            assert(forall|j: int| 0 <= j < i ==> m.take(i as int)[j] == m[j]);
        }
        assert(b.take(k) + (b.skip(k) + m0.data.subrange(
            start1 as int + b.len() as int,
            m0.data.len() as int,
        )) =~= m0.data.subrange(start1 as int, m0.data.len() as int));
        assert(consumed + m0.data.subrange(mcur.rpos as int, m0.data.len() as int)
            =~= m0.data.subrange(start1 as int, m0.data.len() as int));
        lemma_seq_accepts_unambiguous::<T>(
            vmodel,
            m.take(i as int),
            m0.le,
            consumed,
            b.take(k),
            m0.data.subrange(mcur.rpos as int, m0.data.len() as int),
            b.skip(k) + m0.data.subrange(
                start1 as int + b.len() as int,
                m0.data.len() as int,
            ),
        );
        // the witness's next element chunk starts exactly at the cursor
        // where the element load failed
        let tail = m.skip(i as int);
        assert(tail.len() > 0);
        let kk = choose|kk: int|
            0 <= kk <= b.skip(k).len() && T::accepts(tail[0], m0.le, b.skip(k).take(kk))
                && seq_accepts::<T>(tail.drop_first(), m0.le, b.skip(k).skip(kk));
        let c = b.skip(k).take(kk);
        assert(T::encodable(tail[0])) by {
            assert(tail[0] == m[i as int]);
        }
        assert(consumed.len() == k);
        assert(mcur.data.subrange(mcur.rpos as int, mcur.rpos as int + c.len() as int) =~= c) by {
            assert(forall|j: int|
                0 <= j < c.len() ==> c[j] == b[k + j] && b[k + j] == m0.data[m0.rpos + k + j]);
        }
        assert(mcur.starts_with(c));
        assert(T::encodable(tail[0]) && T::accepts(tail[0], mcur.le, c) && mcur.starts_with(c));
    }
}

/// Reads exactly `n` values of one type, as every length-prefixed sequence
/// does after its length. It fails exactly when no `n` accepted chunks in a
/// row open the unread bytes.
#[verifier::rlimit(100)]
#[verifier::spinoff_prover]
pub fn load_elems<T: Savable>(loader: &mut ByteBuffer, n: u64) -> (r: Result<Vec<T>, String>)
    ensures
        final(loader)@.data == old(loader)@.data,
        final(loader)@.le == old(loader)@.le,
        final(loader)@.rpos >= old(loader)@.rpos,
        final(loader)@.rpos <= old(loader)@.data.len(),
        match r {
            Ok(v) => {
                &&& v.model().len() == n
                &&& seq_encodable::<T>(v.model())
                &&& seq_accepts::<T>(
                    v.model(),
                    old(loader)@.le,
                    old(loader)@.data.subrange(
                        old(loader)@.rpos as int,
                        final(loader)@.rpos as int,
                    ),
                )
            },
            Err(_) => !(exists|m: Seq<T::Model>, b: Seq<u8>|
                m.len() == n && seq_encodable::<T>(m) && seq_accepts::<T>(m, old(loader)@.le, b)
                    && old(loader)@.starts_with(b)),
        },
{
    proof {
        loader.lemma_rpos_bound();
    }
    let ghost m0 = old(loader)@;
    let ghost start1 = loader@.rpos;
    let mut vec: Vec<T> = Vec::new();
    let mut i: u64 = 0;
    proof {
        reveal(seq_accepts);
        assert(vec.model() =~= Seq::<T::Model>::empty());
        assert(m0.data.subrange(start1 as int, start1 as int) =~= Seq::<u8>::empty());
    }
    while i < n
        invariant
            m0 == old(loader)@,
            i <= n,
            vec.model().len() == i,
            seq_encodable::<T>(vec.model()),
            loader@.data == m0.data,
            loader@.le == m0.le,
            start1 == m0.rpos,
            start1 <= loader@.rpos <= m0.data.len(),
            seq_accepts::<T>(
                vec.model(),
                m0.le,
                m0.data.subrange(start1 as int, loader@.rpos as int),
            ),
        decreases n - i,
    {
        let ghost mcur = loader@;
        let ghost consumed = m0.data.subrange(start1 as int, loader@.rpos as int);
        match T::load(loader) {
            Ok(v) => {
                let ghost prev = vec.model();
                proof {
                    let c = m0.data.subrange(mcur.rpos as int, loader@.rpos as int);
                    lemma_seq_accepts_snoc::<T>(prev, v.model(), m0.le, consumed, c);
                    assert(consumed + c =~= m0.data.subrange(
                        start1 as int,
                        loader@.rpos as int,
                    ));
                }
                vec.push(v);
                proof {
                    assert(vec.model() =~= prev.push(v.model()));
                    assert(seq_encodable::<T>(vec.model())) by {
                        assert(forall|j: int| 0 <= j < prev.len() ==> vec.model()[j] == prev[j]);
                        assert(vec.model()[prev.len() as int] == v.model());
                    }
                }
            },
            Err(e) => {
                proof {
                    lemma_elems_load_fails::<T>(m0, mcur, n, i, vec.model());
                }
                return Err(e);
            },
        }
        i = i + 1;
    }
    Ok(vec)
}

/// Writes the canonical encodings of the first `count` elements, in order.
pub fn save_elems<T: Savable>(saver: &mut ByteBuffer, items: &Vec<T>, count: usize)
    requires
        count <= items@.len(),
        seq_encodable::<T>(items.model()),
    ensures
        final(saver)@.data == old(saver)@.data + seq_encoding::<T>(
            items.model().take(count as int),
            old(saver)@.le,
        ),
        final(saver)@.rpos == old(saver)@.rpos,
        final(saver)@.le == old(saver)@.le,
{
    let ghost m = items.model();
    let mut i: usize = 0;
    proof {
        assert(m.take(0) =~= Seq::<T::Model>::empty());
        assert(saver@.data =~= old(saver)@.data + seq_encoding::<T>(m.take(0), old(saver)@.le));
    }
    while i < count
        invariant
            i <= count <= items@.len(),
            m == items.model(),
            seq_encodable::<T>(m),
            saver@.data == old(saver)@.data + seq_encoding::<T>(m.take(i as int), old(saver)@.le),
            saver@.rpos == old(saver)@.rpos,
            saver@.le == old(saver)@.le,
        decreases count - i,
    {
        proof {
            assert(m[i as int] == items@[i as int].model());
        }
        let elem = &items[i];
        elem.save(saver);
        proof {
            lemma_seq_encoding_snoc::<T>(m.take(i as int), m[i as int], saver@.le);
            assert(m.take(i + 1) =~= m.take(i as int).push(m[i as int]));
            assert(saver@.data =~= old(saver)@.data + seq_encoding::<T>(
                m.take(i + 1),
                old(saver)@.le,
            ));
        }
        i = i + 1;
    }
}

impl<T: Savable> Savable for Vec<T> {
    type Model = Seq<T::Model>;

    open spec fn model(&self) -> Seq<T::Model> {
        self@.map_values(|t: T| t.model())
    }

    open spec fn encodable(m: Seq<T::Model>) -> bool {
        m.len() < 0x10000000000000000 && seq_encodable::<T>(m)
    }

    open spec fn encoding(m: Seq<T::Model>, le: bool) -> Seq<u8> {
        bytes8(m.len() as u64, le) + seq_encoding::<T>(m, le)
    }

    open spec fn accepts(m: Seq<T::Model>, le: bool, b: Seq<u8>) -> bool {
        &&& Self::encodable(m)
        &&& b.len() >= 8
        &&& b.take(8) == bytes8(m.len() as u64, le)
        &&& seq_accepts::<T>(m, le, b.skip(8))
    }

    proof fn lemma_encoding_accepted(m: Seq<T::Model>, le: bool) {
        lemma_seq_encoding_accepted::<T>(m, le);
        let b = Self::encoding(m, le);
        assert(b.take(8) =~= bytes8(m.len() as u64, le));
        assert(b.skip(8) =~= seq_encoding::<T>(m, le));
    }

    proof fn lemma_accepts_unambiguous(
        m1: Seq<T::Model>,
        m2: Seq<T::Model>,
        le: bool,
        b1: Seq<u8>,
        b2: Seq<u8>,
        t1: Seq<u8>,
        t2: Seq<u8>,
    ) {
        lemma_chop(b1, b2, t1, t2, 8);
        crate::wire::lemma_bytes8_injective(m1.len() as u64, m2.len() as u64, le);
        assert(m1.len() == m2.len());
        lemma_seq_accepts_unambiguous::<T>(m1, m2, le, b1.skip(8), b2.skip(8), t1, t2);
        assert(b1.len() == b2.len()) by {
            assert((b1.take(8) + b1.skip(8)).len() == b1.len());
            assert((b2.take(8) + b2.skip(8)).len() == b2.len());
        }
        lemma_fixed_prefix(b1, b2, t1, t2);
    }

    fn save(&self, saver: &mut ByteBuffer) {
        let ghost m = self.model();
        let len = self.len();
        saver.push_u64(len as u64);
        proof {
            assert(m.len() == len);
        }
        let ghost afterlen = saver@.data;
        let mut i: usize = 0;
        while i < len
            invariant
                i <= len,
                len == self@.len(),
                m == self.model(),
                Self::encodable(m),
                saver@.data == afterlen + seq_encoding::<T>(m.take(i as int), old(saver)@.le),
                afterlen == old(saver)@.data + bytes8(m.len() as u64, old(saver)@.le),
                saver@.rpos == old(saver)@.rpos,
                saver@.le == old(saver)@.le,
            decreases len - i,
        {
            proof {
                assert(m[i as int] == self@[i as int].model());
            }
            let elem = &self[i];
            elem.save(saver);
            proof {
                lemma_seq_encoding_snoc::<T>(m.take(i as int), m[i as int], saver@.le);
                assert(m.take(i + 1) =~= m.take(i as int).push(m[i as int]));
                assert(saver@.data =~= afterlen + seq_encoding::<T>(
                    m.take(i + 1),
                    old(saver)@.le,
                ));
            }
            i = i + 1;
        }
        proof {
            assert(m.take(len as int) =~= m);
            assert(saver@.data =~= old(saver)@.data + Self::encoding(m, old(saver)@.le));
        }
    }

    #[verifier::rlimit(60)]
    #[verifier::spinoff_prover]
    fn load(loader: &mut ByteBuffer) -> (r: Result<Self, String>) {
        proof {
            loader.lemma_rpos_bound();
        }
        let ghost m0 = old(loader)@;
        match loader.pop_u64() {
            None => {
                proof {
                    assert forall|m: Seq<T::Model>, b: Seq<u8>|
                        Self::accepts(m, m0.le, b) && m0.starts_with(b) implies false by {
                        assert(b.len() >= 8);
                    }
                }
                Err("Failed to load u64 from Loader!".to_string())
            },
            Some(n) => {
                let ghost m1 = loader@;
                match load_elems::<T>(loader, n) {
                    Ok(vec) => {
                        proof {
                            let b = m0.data.subrange(m0.rpos as int, loader@.rpos as int);
                            assert(b.take(8) =~= m0.data.subrange(
                                m0.rpos as int,
                                m1.rpos as int,
                            ));
                            assert(b.skip(8) =~= m0.data.subrange(
                                m1.rpos as int,
                                loader@.rpos as int,
                            ));
                            assert(vec.model().len() as u64 == n);
                        }
                        Ok(vec)
                    },
                    Err(e) => {
                        proof {
                            assert forall|m: Seq<T::Model>, b: Seq<u8>|
                                Self::encodable(m) && Self::accepts(m, m0.le, b)
                                    && m0.starts_with(b) implies false by {
                                assert(b.take(8) =~= m0.data.subrange(
                                    m0.rpos as int,
                                    m1.rpos as int,
                                ));
                                crate::wire::lemma_bytes8_injective(m.len() as u64, n, m0.le);
                                assert(m.len() == n);
                                let c = b.skip(8);
                                assert(m1.data.subrange(
                                    m1.rpos as int,
                                    m1.rpos as int + c.len() as int,
                                ) =~= c);
                                assert(m1.starts_with(c));
                                assert(m.len() == n && seq_encodable::<T>(m) && seq_accepts::<T>(
                                    m,
                                    m1.le,
                                    c,
                                ) && m1.starts_with(c));
                            }
                        }
                        Err(e)
                    },
                }
            },
        }
    }
}

} // verus!

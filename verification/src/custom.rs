//! Reusable custom field codecs: bounded-length strings and sequences with
//! one-, two-, four- or eight-byte length prefixes, raw unprefixed forms,
//! and varints. The bounded codecs silently truncate a value that exceeds
//! what their prefix can count — a deliberate, documented hazard: the
//! stream stays structurally sound, but such a save does not round-trip.
use crate::buffer::ByteBuffer;
use crate::save::{
    lemma_seq_accepts_snoc, load_elems, seq_accepts, seq_encodable, seq_encoding, Savable,
};
use crate::varint::{varint_enc, varint_fits, varint_value, zigzag};
use crate::wire::{bytes2, bytes8};
use vstd::prelude::*;
use vstd::utf8::encode_utf8;

verus! {

/// The bytes the one-byte-prefixed string codec writes: a length capped at
/// 255, then that many UTF-8 bytes, truncated mid-character if need be.
pub open spec fn str8_bytes(m: Seq<char>) -> Seq<u8> {
    let u = encode_utf8(m);
    let n: int = if u.len() > 255 {
        255
    } else {
        u.len() as int
    };
    seq![n as u8] + u.take(n)
}

/// The bytes the two-byte-prefixed string codec writes.
pub open spec fn str16_bytes(m: Seq<char>, le: bool) -> Seq<u8> {
    let u = encode_utf8(m);
    let n: int = if u.len() > 65535 {
        65535
    } else {
        u.len() as int
    };
    bytes2(n as u16, le) + u.take(n)
}

/// The bytes the eight-byte-prefixed string codec writes: no truncation.
pub open spec fn str64_bytes(m: Seq<char>, le: bool) -> Seq<u8> {
    bytes8(encode_utf8(m).len() as u64, le) + encode_utf8(m)
}

/// Writes a string under a one-byte length: anything past 255 UTF-8 bytes
/// is silently cut off.
pub fn string8_save(saver: &mut ByteBuffer, value: &String)
    ensures
        final(saver)@.data == old(saver)@.data + str8_bytes(value@),
        final(saver)@.rpos == old(saver)@.rpos,
        final(saver)@.le == old(saver)@.le,
{
    let bytes = value.as_str().as_bytes();
    if bytes.len() > 255 {
        saver.push_u8(255);
        saver.push_bytes(vstd::slice::slice_subrange(bytes, 0, 255));
    } else {
        saver.push_u8(bytes.len() as u8);
        saver.push_bytes(bytes);
    }
    proof {
        assert(saver@.data =~= old(saver)@.data + str8_bytes(value@));
    }
}

/// Reads a one-byte-prefixed string back. It fails exactly when no string
/// of at most 255 UTF-8 bytes opens the unread bytes.
pub fn string8_load(loader: &mut ByteBuffer) -> (r: Result<String, String>)
    ensures
        final(loader)@.data == old(loader)@.data,
        final(loader)@.le == old(loader)@.le,
        final(loader)@.rpos >= old(loader)@.rpos,
        final(loader)@.rpos <= old(loader)@.data.len(),
        match r {
            Ok(s) => {
                &&& encode_utf8(s@).len() <= 255
                &&& old(loader)@.starts_with(seq![encode_utf8(s@).len() as u8] + encode_utf8(s@))
                &&& final(loader)@.rpos == old(loader)@.rpos + 1 + encode_utf8(s@).len()
            },
            Err(_) => !(exists|t: Seq<char>|
                encode_utf8(t).len() <= 255 && old(loader)@.starts_with(
                    seq![encode_utf8(t).len() as u8] + encode_utf8(t),
                )),
        },
{
    proof {
        loader.lemma_rpos_bound();
    }
    let ghost m0 = old(loader)@;
    match loader.pop_u8() {
        None => {
            proof {
                assert forall|t: Seq<char>|
                    encode_utf8(t).len() <= 255 && m0.starts_with(
                        seq![encode_utf8(t).len() as u8] + encode_utf8(t),
                    ) implies false by {
                    assert((seq![encode_utf8(t).len() as u8] + encode_utf8(t)).len() >= 1);
                }
            }
            Err("Failed to load String8 from Loader!".to_string())
        },
        Some(n) => {
            match loader.pop_bytes(n as usize) {
                None => {
                    proof {
                        assert forall|t: Seq<char>|
                            encode_utf8(t).len() <= 255 && m0.starts_with(
                                seq![encode_utf8(t).len() as u8] + encode_utf8(t),
                            ) implies false by {
                            let p = seq![encode_utf8(t).len() as u8] + encode_utf8(t);
                            assert(p[0] == m0.data[m0.rpos as int]);
                            assert(encode_utf8(t).len() == n);
                        }
                    }
                    Err("Failed to load String8 from Loader!".to_string())
                },
                Some(bytes) => {
                    let ghost raw = bytes@;
                    match crate::buffer::string_from_utf8(bytes) {
                        Some(s) => {
                            proof {
                                let p = seq![encode_utf8(s@).len() as u8] + encode_utf8(s@);
                                assert(m0.data.subrange(
                                    m0.rpos as int,
                                    m0.rpos as int + p.len() as int,
                                ) =~= p);
                            }
                            Ok(s)
                        },
                        None => {
                            proof {
                                assert forall|t: Seq<char>|
                                    encode_utf8(t).len() <= 255 && m0.starts_with(
                                        seq![encode_utf8(t).len() as u8] + encode_utf8(t),
                                    ) implies false by {
                                    let u = encode_utf8(t);
                                    let p = seq![u.len() as u8] + u;
                                    assert(p[0] == m0.data[m0.rpos as int]);
                                    assert(u.len() == n);
                                    assert(p.skip(1) =~= u);
                                    assert(m0.data.subrange(
                                        m0.rpos as int + 1,
                                        m0.rpos as int + 1 + n as int,
                                    ) =~= p.skip(1));
                                    assert(raw == u);
                                    vstd::utf8::encode_utf8_valid_utf8(t);
                                }
                            }
                            Err("Failed to load String8 from Loader!".to_string())
                        },
                    }
                },
            }
        },
    }
}

/// Writes a string under a two-byte length: anything past 65535 UTF-8
/// bytes is silently cut off.
pub fn string16_save(saver: &mut ByteBuffer, value: &String)
    ensures
        final(saver)@.data == old(saver)@.data + str16_bytes(value@, old(saver)@.le),
        final(saver)@.rpos == old(saver)@.rpos,
        final(saver)@.le == old(saver)@.le,
{
    let bytes = value.as_str().as_bytes();
    if bytes.len() > 65535 {
        saver.push_u16(65535);
        saver.push_bytes(vstd::slice::slice_subrange(bytes, 0, 65535));
    } else {
        saver.push_u16(bytes.len() as u16);
        saver.push_bytes(bytes);
    }
    proof {
        assert(saver@.data =~= old(saver)@.data + str16_bytes(value@, old(saver)@.le));
    }
}

/// Reads a two-byte-prefixed string back.
pub fn string16_load(loader: &mut ByteBuffer) -> (r: Result<String, String>)
    ensures
        final(loader)@.data == old(loader)@.data,
        final(loader)@.le == old(loader)@.le,
        final(loader)@.rpos >= old(loader)@.rpos,
        final(loader)@.rpos <= old(loader)@.data.len(),
        match r {
            Ok(s) => {
                &&& encode_utf8(s@).len() <= 65535
                &&& old(loader)@.starts_with(
                    bytes2(encode_utf8(s@).len() as u16, old(loader)@.le) + encode_utf8(s@),
                )
                &&& final(loader)@.rpos == old(loader)@.rpos + 2 + encode_utf8(s@).len()
            },
            Err(_) => !(exists|t: Seq<char>|
                encode_utf8(t).len() <= 65535 && old(loader)@.starts_with(
                    bytes2(encode_utf8(t).len() as u16, old(loader)@.le) + encode_utf8(t),
                )),
        },
{
    proof {
        loader.lemma_rpos_bound();
    }
    let ghost m0 = old(loader)@;
    match loader.pop_u16() {
        None => {
            proof {
                assert forall|t: Seq<char>|
                    encode_utf8(t).len() <= 65535 && m0.starts_with(
                        bytes2(encode_utf8(t).len() as u16, m0.le) + encode_utf8(t),
                    ) implies false by {
                    assert((bytes2(encode_utf8(t).len() as u16, m0.le) + encode_utf8(
                        t,
                    )).len() >= 2);
                }
            }
            Err("Failed to load String16 from Loader!".to_string())
        },
        Some(n) => {
            match loader.pop_bytes(n as usize) {
                None => {
                    proof {
                        assert forall|t: Seq<char>|
                            encode_utf8(t).len() <= 65535 && m0.starts_with(
                                bytes2(encode_utf8(t).len() as u16, m0.le) + encode_utf8(t),
                            ) implies false by {
                            let u = encode_utf8(t);
                            let p = bytes2(u.len() as u16, m0.le) + u;
                            assert(p.take(2) =~= bytes2(u.len() as u16, m0.le));
                            assert(m0.data.subrange(m0.rpos as int, m0.rpos as int + 2)
                                =~= p.take(2));
                            crate::wire::lemma_bytes2_injective(n, u.len() as u16, m0.le);
                            assert(u.len() == n);
                        }
                    }
                    Err("Failed to load String16 from Loader!".to_string())
                },
                Some(bytes) => {
                    let ghost raw = bytes@;
                    match crate::buffer::string_from_utf8(bytes) {
                        Some(s) => {
                            proof {
                                let p = bytes2(encode_utf8(s@).len() as u16, m0.le) + encode_utf8(
                                    s@,
                                );
                                assert(m0.data.subrange(
                                    m0.rpos as int,
                                    m0.rpos as int + p.len() as int,
                                ) =~= p);
                            }
                            Ok(s)
                        },
                        None => {
                            proof {
                                assert forall|t: Seq<char>|
                                    encode_utf8(t).len() <= 65535 && m0.starts_with(
                                        bytes2(encode_utf8(t).len() as u16, m0.le) + encode_utf8(
                                            t,
                                        ),
                                    ) implies false by {
                                    let u = encode_utf8(t);
                                    let p = bytes2(u.len() as u16, m0.le) + u;
                                    assert(p.take(2) =~= bytes2(u.len() as u16, m0.le));
                                    assert(m0.data.subrange(m0.rpos as int, m0.rpos as int + 2)
                                        =~= p.take(2));
                                    crate::wire::lemma_bytes2_injective(n, u.len() as u16, m0.le);
                                    assert(u.len() == n);
                                    assert(p.skip(2) =~= u);
                                    assert(m0.data.subrange(
                                        m0.rpos as int + 2,
                                        m0.rpos as int + 2 + n as int,
                                    ) =~= p.skip(2));
                                    assert(raw == u);
                                    vstd::utf8::encode_utf8_valid_utf8(t);
                                }
                            }
                            Err("Failed to load String16 from Loader!".to_string())
                        },
                    }
                },
            }
        },
    }
}

/// Writes a string under an eight-byte length: never truncates.
pub fn string64_save(saver: &mut ByteBuffer, value: &String)
    ensures
        final(saver)@.data == old(saver)@.data + str64_bytes(value@, old(saver)@.le),
        final(saver)@.rpos == old(saver)@.rpos,
        final(saver)@.le == old(saver)@.le,
{
    let bytes = value.as_str().as_bytes();
    saver.push_u64(bytes.len() as u64);
    saver.push_bytes(bytes);
    proof {
        assert(saver@.data =~= old(saver)@.data + str64_bytes(value@, old(saver)@.le));
    }
}

/// Reads an eight-byte-prefixed string back.
#[verifier::rlimit(100)]
#[verifier::spinoff_prover]
pub fn string64_load(loader: &mut ByteBuffer) -> (r: Result<String, String>)
    ensures
        final(loader)@.data == old(loader)@.data,
        final(loader)@.le == old(loader)@.le,
        final(loader)@.rpos >= old(loader)@.rpos,
        final(loader)@.rpos <= old(loader)@.data.len(),
        match r {
            Ok(s) => {
                &&& old(loader)@.starts_with(str64_bytes(s@, old(loader)@.le))
                &&& final(loader)@.rpos == old(loader)@.rpos + 8 + encode_utf8(s@).len()
            },
            Err(_) => !(exists|t: Seq<char>|
                encode_utf8(t).len() <= usize::MAX && old(loader)@.starts_with(
                    str64_bytes(t, old(loader)@.le),
                )),
        },
{
    proof {
        loader.lemma_rpos_bound();
    }
    let ghost m0 = old(loader)@;
    match loader.pop_u64() {
        None => {
            proof {
                assert forall|t: Seq<char>|
                    encode_utf8(t).len() <= usize::MAX && m0.starts_with(
                        str64_bytes(t, m0.le),
                    ) implies false by {
                    assert(str64_bytes(t, m0.le).len() >= 8);
                }
            }
            Err("Failed to load String64 from Loader!".to_string())
        },
        Some(n) => {
            if n > usize::MAX as u64 {
                proof {
                    assert forall|t: Seq<char>|
                        encode_utf8(t).len() <= usize::MAX && m0.starts_with(
                            str64_bytes(t, m0.le),
                        ) implies false by {
                        let u = encode_utf8(t);
                        let p = str64_bytes(t, m0.le);
                        assert(p.take(8) =~= bytes8(u.len() as u64, m0.le));
                        assert(m0.data.subrange(m0.rpos as int, m0.rpos as int + 8)
                            =~= p.take(8));
                        crate::wire::lemma_bytes8_injective(n, u.len() as u64, m0.le);
                    }
                }
                return Err("Failed to load String64 from Loader!".to_string());
            }
            match loader.pop_bytes(n as usize) {
                None => {
                    proof {
                        assert forall|t: Seq<char>|
                            encode_utf8(t).len() <= usize::MAX && m0.starts_with(
                                str64_bytes(t, m0.le),
                            ) implies false by {
                            let u = encode_utf8(t);
                            let p = str64_bytes(t, m0.le);
                            assert(p.take(8) =~= bytes8(u.len() as u64, m0.le));
                            assert(m0.data.subrange(m0.rpos as int, m0.rpos as int + 8)
                                =~= p.take(8));
                            crate::wire::lemma_bytes8_injective(n, u.len() as u64, m0.le);
                            assert(u.len() == n);
                        }
                    }
                    Err("Failed to load String64 from Loader!".to_string())
                },
                Some(bytes) => {
                    let ghost raw = bytes@;
                    match crate::buffer::string_from_utf8(bytes) {
                        Some(s) => {
                            proof {
                                let p = str64_bytes(s@, m0.le);
                                assert(m0.data.subrange(
                                    m0.rpos as int,
                                    m0.rpos as int + p.len() as int,
                                ) =~= p);
                            }
                            Ok(s)
                        },
                        None => {
                            proof {
                                assert forall|t: Seq<char>|
                                    encode_utf8(t).len() <= usize::MAX && m0.starts_with(
                                        str64_bytes(t, m0.le),
                                    ) implies false by {
                                    let u = encode_utf8(t);
                                    let p = str64_bytes(t, m0.le);
                                    assert(p.take(8) =~= bytes8(u.len() as u64, m0.le));
                                    assert(m0.data.subrange(m0.rpos as int, m0.rpos as int + 8)
                                        =~= p.take(8));
                                    crate::wire::lemma_bytes8_injective(n, u.len() as u64, m0.le);
                                    assert(u.len() == n);
                                    assert(p.skip(8) =~= u);
                                    assert(m0.data.subrange(
                                        m0.rpos as int + 8,
                                        m0.rpos as int + 8 + n as int,
                                    ) =~= p.skip(8));
                                    assert(raw == u);
                                    vstd::utf8::encode_utf8_valid_utf8(t);
                                }
                            }
                            Err("Failed to load String64 from Loader!".to_string())
                        },
                    }
                },
            }
        },
    }
}

/// The bytes the one-byte-prefixed sequence codec writes: a length capped
/// at 255, then that many elements.
pub open spec fn vec8_bytes<T: Savable>(m: Seq<T::Model>, le: bool) -> Seq<u8> {
    let n: int = if m.len() > 255 {
        255
    } else {
        m.len() as int
    };
    seq![n as u8] + seq_encoding::<T>(m.take(n), le)
}

/// The bytes the two-byte-prefixed sequence codec writes.
pub open spec fn vec16_bytes<T: Savable>(m: Seq<T::Model>, le: bool) -> Seq<u8> {
    let n: int = if m.len() > 65535 {
        65535
    } else {
        m.len() as int
    };
    bytes2(n as u16, le) + seq_encoding::<T>(m.take(n), le)
}

/// The bytes the four-byte-prefixed sequence codec writes.
pub open spec fn vec32_bytes<T: Savable>(m: Seq<T::Model>, le: bool) -> Seq<u8> {
    let n: int = if m.len() > 0xFFFFFFFF {
        0xFFFFFFFF
    } else {
        m.len() as int
    };
    crate::wire::bytes4(n as u32, le) + seq_encoding::<T>(m.take(n), le)
}

/// Writes a sequence under a one-byte length: anything past 255 elements is
/// silently cut off.
pub fn vec8_save<T: Savable>(saver: &mut ByteBuffer, vec: &Vec<T>)
    requires
        seq_encodable::<T>(vec.model()),
    ensures
        final(saver)@.data == old(saver)@.data + vec8_bytes::<T>(vec.model(), old(saver)@.le),
        final(saver)@.rpos == old(saver)@.rpos,
        final(saver)@.le == old(saver)@.le,
{
    let n: usize = if vec.len() > 255 {
        255
    } else {
        vec.len()
    };
    saver.push_u8(n as u8);
    crate::save::save_elems::<T>(saver, vec, n);
    proof {
        assert(saver@.data =~= old(saver)@.data + vec8_bytes::<T>(vec.model(), old(saver)@.le));
    }
}

/// Reads a one-byte-prefixed sequence back.
pub fn vec8_load<T: Savable>(loader: &mut ByteBuffer) -> (r: Result<Vec<T>, String>)
    ensures
        final(loader)@.data == old(loader)@.data,
        final(loader)@.le == old(loader)@.le,
        final(loader)@.rpos >= old(loader)@.rpos,
        final(loader)@.rpos <= old(loader)@.data.len(),
        match r {
            Ok(v) => {
                &&& v.model().len() <= 255
                &&& seq_encodable::<T>(v.model())
                &&& old(loader)@.data.subrange(
                    old(loader)@.rpos as int,
                    old(loader)@.rpos as int + 1,
                ) == seq![v.model().len() as u8]
                &&& seq_accepts::<T>(
                    v.model(),
                    old(loader)@.le,
                    old(loader)@.data.subrange(
                        old(loader)@.rpos as int + 1,
                        final(loader)@.rpos as int,
                    ),
                )
            },
            Err(_) => !(exists|m: Seq<T::Model>, b: Seq<u8>|
                m.len() <= 255 && seq_encodable::<T>(m) && seq_accepts::<T>(
                    m,
                    old(loader)@.le,
                    b,
                ) && old(loader)@.starts_with(seq![m.len() as u8] + b)),
        },
{
    proof {
        loader.lemma_rpos_bound();
    }
    let ghost m0 = old(loader)@;
    match loader.pop_u8() {
        None => {
            proof {
                assert forall|m: Seq<T::Model>, b: Seq<u8>|
                    m.len() <= 255 && seq_encodable::<T>(m) && seq_accepts::<T>(m, m0.le, b)
                        && m0.starts_with(seq![m.len() as u8] + b) implies false by {
                    assert((seq![m.len() as u8] + b).len() >= 1);
                }
            }
            Err("Failed to load u8 from Loader!".to_string())
        },
        Some(n) => {
            let ghost m1 = loader@;
            match load_elems::<T>(loader, n as u64) {
                Ok(v) => {
                    proof {
                        assert(m0.data.subrange(m0.rpos as int, m0.rpos as int + 1) =~= seq![n]);
                    }
                    Ok(v)
                },
                Err(e) => {
                    proof {
                        assert forall|m: Seq<T::Model>, b: Seq<u8>|
                            m.len() <= 255 && seq_encodable::<T>(m) && seq_accepts::<T>(
                                m,
                                m0.le,
                                b,
                            ) && m0.starts_with(seq![m.len() as u8] + b) implies false by {
                            let p = seq![m.len() as u8] + b;
                            assert(p[0] == m0.data[m0.rpos as int]);
                            assert(m.len() == n);
                            assert(p.skip(1) =~= b);
                            assert(m1.data.subrange(
                                m1.rpos as int,
                                m1.rpos as int + b.len() as int,
                            ) =~= b);
                            assert(m1.starts_with(b));
                            assert(m.len() == n as u64 && seq_encodable::<T>(m)
                                && seq_accepts::<T>(m, m1.le, b) && m1.starts_with(b));
                        }
                    }
                    Err(e)
                },
            }
        },
    }
}

/// Writes a sequence under a two-byte length: anything past 65535 elements
/// is silently cut off.
pub fn vec16_save<T: Savable>(saver: &mut ByteBuffer, vec: &Vec<T>)
    requires
        seq_encodable::<T>(vec.model()),
    ensures
        final(saver)@.data == old(saver)@.data + vec16_bytes::<T>(vec.model(), old(saver)@.le),
        final(saver)@.rpos == old(saver)@.rpos,
        final(saver)@.le == old(saver)@.le,
{
    let n: usize = if vec.len() > 65535 {
        65535
    } else {
        vec.len()
    };
    saver.push_u16(n as u16);
    crate::save::save_elems::<T>(saver, vec, n);
    proof {
        assert(saver@.data =~= old(saver)@.data + vec16_bytes::<T>(vec.model(), old(saver)@.le));
    }
}

/// Reads a two-byte-prefixed sequence back.
pub fn vec16_load<T: Savable>(loader: &mut ByteBuffer) -> (r: Result<Vec<T>, String>)
    ensures
        final(loader)@.data == old(loader)@.data,
        final(loader)@.le == old(loader)@.le,
        final(loader)@.rpos >= old(loader)@.rpos,
        final(loader)@.rpos <= old(loader)@.data.len(),
        match r {
            Ok(v) => {
                &&& v.model().len() <= 65535
                &&& seq_encodable::<T>(v.model())
                &&& old(loader)@.data.subrange(
                    old(loader)@.rpos as int,
                    old(loader)@.rpos as int + 2,
                ) == bytes2(v.model().len() as u16, old(loader)@.le)
                &&& seq_accepts::<T>(
                    v.model(),
                    old(loader)@.le,
                    old(loader)@.data.subrange(
                        old(loader)@.rpos as int + 2,
                        final(loader)@.rpos as int,
                    ),
                )
            },
            Err(_) => !(exists|m: Seq<T::Model>, b: Seq<u8>|
                m.len() <= 65535 && seq_encodable::<T>(m) && seq_accepts::<T>(
                    m,
                    old(loader)@.le,
                    b,
                ) && old(loader)@.starts_with(bytes2(m.len() as u16, old(loader)@.le) + b)),
        },
{
    proof {
        loader.lemma_rpos_bound();
    }
    let ghost m0 = old(loader)@;
    match loader.pop_u16() {
        None => {
            proof {
                assert forall|m: Seq<T::Model>, b: Seq<u8>|
                    m.len() <= 65535 && seq_encodable::<T>(m) && seq_accepts::<T>(m, m0.le, b)
                        && m0.starts_with(
                        bytes2(m.len() as u16, m0.le) + b,
                    ) implies false by {
                    assert((bytes2(m.len() as u16, m0.le) + b).len() >= 2);
                }
            }
            Err("Failed to load u16 from Loader!".to_string())
        },
        Some(n) => {
            let ghost m1 = loader@;
            match load_elems::<T>(loader, n as u64) {
                Ok(v) => {
                    proof {
                        assert(m0.data.subrange(m0.rpos as int, m0.rpos as int + 2) =~= bytes2(
                            n,
                            m0.le,
                        ));
                    }
                    Ok(v)
                },
                Err(e) => {
                    proof {
                        assert forall|m: Seq<T::Model>, b: Seq<u8>|
                            m.len() <= 65535 && seq_encodable::<T>(m) && seq_accepts::<T>(
                                m,
                                m0.le,
                                b,
                            ) && m0.starts_with(
                            bytes2(m.len() as u16, m0.le) + b,
                        ) implies false by {
                            let p = bytes2(m.len() as u16, m0.le) + b;
                            assert(p.take(2) =~= bytes2(m.len() as u16, m0.le));
                            assert(m0.data.subrange(m0.rpos as int, m0.rpos as int + 2)
                                =~= p.take(2));
                            crate::wire::lemma_bytes2_injective(n, m.len() as u16, m0.le);
                            assert(m.len() == n);
                            assert(p.skip(2) =~= b);
                            assert(m1.data.subrange(
                                m1.rpos as int,
                                m1.rpos as int + b.len() as int,
                            ) =~= b);
                            assert(m1.starts_with(b));
                            assert(m.len() == n as u64 && seq_encodable::<T>(m)
                                && seq_accepts::<T>(m, m1.le, b) && m1.starts_with(b));
                        }
                    }
                    Err(e)
                },
            }
        },
    }
}

/// Writes a sequence under a four-byte length.
pub fn vec32_save<T: Savable>(saver: &mut ByteBuffer, vec: &Vec<T>)
    requires
        seq_encodable::<T>(vec.model()),
    ensures
        final(saver)@.data == old(saver)@.data + vec32_bytes::<T>(vec.model(), old(saver)@.le),
        final(saver)@.rpos == old(saver)@.rpos,
        final(saver)@.le == old(saver)@.le,
{
    let n: usize = if vec.len() > 0xFFFFFFFF {
        0xFFFFFFFF
    } else {
        vec.len()
    };
    saver.push_u32(n as u32);
    crate::save::save_elems::<T>(saver, vec, n);
    proof {
        assert(saver@.data =~= old(saver)@.data + vec32_bytes::<T>(vec.model(), old(saver)@.le));
    }
}

/// Reads a four-byte-prefixed sequence back.
pub fn vec32_load<T: Savable>(loader: &mut ByteBuffer) -> (r: Result<Vec<T>, String>)
    ensures
        final(loader)@.data == old(loader)@.data,
        final(loader)@.le == old(loader)@.le,
        final(loader)@.rpos >= old(loader)@.rpos,
        final(loader)@.rpos <= old(loader)@.data.len(),
        match r {
            Ok(v) => {
                &&& v.model().len() <= 0xFFFFFFFF
                &&& seq_encodable::<T>(v.model())
                &&& old(loader)@.data.subrange(
                    old(loader)@.rpos as int,
                    old(loader)@.rpos as int + 4,
                ) == crate::wire::bytes4(v.model().len() as u32, old(loader)@.le)
                &&& seq_accepts::<T>(
                    v.model(),
                    old(loader)@.le,
                    old(loader)@.data.subrange(
                        old(loader)@.rpos as int + 4,
                        final(loader)@.rpos as int,
                    ),
                )
            },
            Err(_) => !(exists|m: Seq<T::Model>, b: Seq<u8>|
                m.len() <= 0xFFFFFFFF && seq_encodable::<T>(m) && seq_accepts::<T>(
                    m,
                    old(loader)@.le,
                    b,
                ) && old(loader)@.starts_with(
                    crate::wire::bytes4(m.len() as u32, old(loader)@.le) + b,
                )),
        },
{
    proof {
        loader.lemma_rpos_bound();
    }
    let ghost m0 = old(loader)@;
    match loader.pop_u32() {
        None => {
            proof {
                assert forall|m: Seq<T::Model>, b: Seq<u8>|
                    m.len() <= 0xFFFFFFFF && seq_encodable::<T>(m) && seq_accepts::<T>(
                        m,
                        m0.le,
                        b,
                    ) && m0.starts_with(
                    crate::wire::bytes4(m.len() as u32, m0.le) + b,
                ) implies false by {
                    assert((crate::wire::bytes4(m.len() as u32, m0.le) + b).len() >= 4);
                }
            }
            Err("Failed to load u32 from Loader!".to_string())
        },
        Some(n) => {
            let ghost m1 = loader@;
            match load_elems::<T>(loader, n as u64) {
                Ok(v) => {
                    proof {
                        assert(m0.data.subrange(m0.rpos as int, m0.rpos as int + 4)
                            =~= crate::wire::bytes4(n, m0.le));
                    }
                    Ok(v)
                },
                Err(e) => {
                    proof {
                        assert forall|m: Seq<T::Model>, b: Seq<u8>|
                            m.len() <= 0xFFFFFFFF && seq_encodable::<T>(m) && seq_accepts::<T>(
                                m,
                                m0.le,
                                b,
                            ) && m0.starts_with(
                            crate::wire::bytes4(m.len() as u32, m0.le) + b,
                        ) implies false by {
                            let p = crate::wire::bytes4(m.len() as u32, m0.le) + b;
                            assert(p.take(4) =~= crate::wire::bytes4(m.len() as u32, m0.le));
                            assert(m0.data.subrange(m0.rpos as int, m0.rpos as int + 4)
                                =~= p.take(4));
                            crate::wire::lemma_bytes4_injective(n, m.len() as u32, m0.le);
                            assert(m.len() == n);
                            assert(p.skip(4) =~= b);
                            assert(m1.data.subrange(
                                m1.rpos as int,
                                m1.rpos as int + b.len() as int,
                            ) =~= b);
                            assert(m1.starts_with(b));
                            assert(m.len() == n as u64 && seq_encodable::<T>(m)
                                && seq_accepts::<T>(m, m1.le, b) && m1.starts_with(b));
                        }
                    }
                    Err(e)
                },
            }
        },
    }
}

/// Writes the elements only, with no length prefix: the reader must know
/// where the sequence ends, or read to the end of the buffer.
pub fn raw_vec_save<T: Savable>(saver: &mut ByteBuffer, vec: &Vec<T>)
    requires
        seq_encodable::<T>(vec.model()),
    ensures
        final(saver)@.data == old(saver)@.data + seq_encoding::<T>(vec.model(), old(saver)@.le),
        final(saver)@.rpos == old(saver)@.rpos,
        final(saver)@.le == old(saver)@.le,
{
    let n = vec.len();
    crate::save::save_elems::<T>(saver, vec, n);
    proof {
        assert(vec.model().take(n as int) =~= vec.model());
    }
}

/// True when no encodable value's accepted encoding opens the data at
/// position `p`: the end-of-buffer condition the raw sequence codec reads
/// up to.
pub open spec fn no_element_at<T: Savable>(data: Seq<u8>, p: int, le: bool) -> bool {
    !(exists|x: T::Model, c: Seq<u8>|
        T::encodable(x) && T::accepts(x, le, c) && p + c.len() <= data.len() && data.subrange(
            p,
            p + c.len() as int,
        ) == c)
}

/// Reads elements until one fails to load, and keeps everything read so
/// far. The elements read reach a position past which no further element
/// opens the stream — unless the element type accepts an empty encoding,
/// in which case "the end" is ill-defined and reading stops at the first
/// such element. After the final failing read the cursor is wherever that
/// read stopped.
pub fn raw_vec_load<T: Savable>(loader: &mut ByteBuffer) -> (r: Result<Vec<T>, String>)
    ensures
        final(loader)@.data == old(loader)@.data,
        final(loader)@.le == old(loader)@.le,
        final(loader)@.rpos >= old(loader)@.rpos,
        final(loader)@.rpos <= old(loader)@.data.len(),
        match r {
            Ok(v) => {
                &&& seq_encodable::<T>(v.model())
                &&& exists|p: int|
                    old(loader)@.rpos <= p <= final(loader)@.rpos && seq_accepts::<T>(
                        v.model(),
                        old(loader)@.le,
                        old(loader)@.data.subrange(old(loader)@.rpos as int, p),
                    ) && (no_element_at::<T>(old(loader)@.data, p, old(loader)@.le) || (
                    exists|x: T::Model|
                        T::encodable(x) && T::accepts(x, old(loader)@.le, Seq::empty())))
            },
            Err(_) => false,
        },
{
    proof {
        loader.lemma_rpos_bound();
        reveal(seq_accepts);
    }
    let ghost m0 = old(loader)@;
    let mut vec: Vec<T> = Vec::new();
    let ghost mut good_end: nat = m0.rpos;
    proof {
        assert(vec.model() =~= Seq::<T::Model>::empty());
        assert(m0.data.subrange(m0.rpos as int, m0.rpos as int) =~= Seq::<u8>::empty());
    }
    loop
        invariant
            m0 == old(loader)@,
            loader@.data == m0.data,
            loader@.le == m0.le,
            m0.rpos <= loader@.rpos <= m0.data.len(),
            good_end == loader@.rpos,
            seq_encodable::<T>(vec.model()),
            seq_accepts::<T>(
                vec.model(),
                m0.le,
                m0.data.subrange(m0.rpos as int, good_end as int),
            ),
        decreases m0.data.len() - loader@.rpos + 1,
    {
        let before = loader.get_rpos();
        let ghost mcur = loader@;
        let ghost consumed = m0.data.subrange(m0.rpos as int, good_end as int);
        match T::load(loader) {
            Err(_) => {
                proof {
                    assert(no_element_at::<T>(m0.data, good_end as int, m0.le)) by {
                        assert forall|x: T::Model, c: Seq<u8>|
                            !(T::encodable(x) && T::accepts(x, m0.le, c) && good_end + c.len()
                                <= m0.data.len() && m0.data.subrange(
                                good_end as int,
                                good_end as int + c.len() as int,
                            ) == c) by {
                            if T::encodable(x) && T::accepts(x, m0.le, c) && good_end + c.len()
                                <= m0.data.len() && m0.data.subrange(
                                good_end as int,
                                good_end as int + c.len() as int,
                            ) == c {
                                assert(mcur.starts_with(c));
                            }
                        }
                    }
                    let p = good_end as int;
                    assert(m0.rpos <= p <= loader@.rpos && seq_accepts::<T>(
                        vec.model(),
                        m0.le,
                        m0.data.subrange(m0.rpos as int, p),
                    ) && (no_element_at::<T>(m0.data, p, m0.le) || (exists|x: T::Model|
                        T::encodable(x) && T::accepts(x, m0.le, Seq::empty()))));
                }
                return Ok(vec);
            },
            Ok(t) => {
                let after = loader.get_rpos();
                let ghost prev = vec.model();
                proof {
                    let c = m0.data.subrange(good_end as int, loader@.rpos as int);
                    assert(good_end == before);
                    lemma_seq_accepts_snoc::<T>(prev, t.model(), m0.le, consumed, c);
                    assert(consumed + c =~= m0.data.subrange(m0.rpos as int, loader@.rpos as int));
                }
                vec.push(t);
                proof {
                    assert(vec.model() =~= prev.push(t.model()));
                    assert(seq_encodable::<T>(vec.model())) by {
                        assert(forall|j: int| 0 <= j < prev.len() ==> vec.model()[j] == prev[j]);
                        assert(vec.model()[prev.len() as int] == t.model());
                    }
                    good_end = loader@.rpos;
                }
                if after == before {
                    proof {
                        assert(m0.data.subrange(before as int, before as int) =~= Seq::<
                            u8,
                        >::empty());
                        assert(T::encodable(t.model()) && T::accepts(
                            t.model(),
                            m0.le,
                            Seq::empty(),
                        ));
                        let p = good_end as int;
                        assert(m0.rpos <= p <= loader@.rpos && seq_accepts::<T>(
                            vec.model(),
                            m0.le,
                            m0.data.subrange(m0.rpos as int, p),
                        ) && (no_element_at::<T>(m0.data, p, m0.le) || (exists|x: T::Model|
                            T::encodable(x) && T::accepts(x, m0.le, Seq::empty()))));
                    }
                    return Ok(vec);
                }
            },
        }
    }
}

/// Writes raw bytes with no framing at all.
pub fn raw_bytes_save(saver: &mut ByteBuffer, vec: &Vec<u8>)
    ensures
        final(saver)@.data == old(saver)@.data + vec@,
        final(saver)@.rpos == old(saver)@.rpos,
        final(saver)@.le == old(saver)@.le,
{
    saver.push_bytes(vec.as_slice());
}

/// Reads every unread byte.
pub fn raw_bytes_load(loader: &mut ByteBuffer) -> (r: Result<Vec<u8>, String>)
    ensures
        final(loader)@.data == old(loader)@.data,
        final(loader)@.le == old(loader)@.le,
        final(loader)@.rpos == old(loader)@.data.len(),
        match r {
            Ok(v) => v@ == old(loader)@.remaining(),
            Err(_) => false,
        },
{
    match loader.pop_to_end() {
        Some(v) => Ok(v),
        None => Err("Failed to load bytes from loader!".to_string()),
    }
}

/// Loads an empty sequence without touching the buffer: the counterpart of
/// a field that is never written.
pub fn empty_vec_load<T>(_loader: &mut ByteBuffer) -> (r: Result<Vec<T>, String>)
    ensures
        final(_loader)@ == old(_loader)@,
        match r {
            Ok(v) => v@.len() == 0,
            Err(_) => false,
        },
{
    Ok(Vec::new())
}

/// Writes nothing: the save half of an ignored field.
pub fn ignore_save<T>(_saver: &mut ByteBuffer, _value: &T)
    ensures
        final(_saver)@ == old(_saver)@,
{
}

/// The default save: the value's own encoding.
pub fn save<T: Savable>(saver: &mut ByteBuffer, item: &T)
    requires
        T::encodable(item.model()),
    ensures
        final(saver)@.data == old(saver)@.data + T::encoding(item.model(), old(saver)@.le),
        final(saver)@.rpos == old(saver)@.rpos,
        final(saver)@.le == old(saver)@.le,
{
    item.save(saver);
}

/// The default load: the value's own decoding.
pub fn load<T: Savable>(loader: &mut ByteBuffer) -> (r: Result<T, String>)
    ensures
        final(loader)@.data == old(loader)@.data,
        final(loader)@.le == old(loader)@.le,
        final(loader)@.rpos >= old(loader)@.rpos,
        final(loader)@.rpos <= old(loader)@.data.len(),
        match r {
            Ok(v) => T::encodable(v.model()) && T::accepts(
                v.model(),
                old(loader)@.le,
                old(loader)@.data.subrange(old(loader)@.rpos as int, final(loader)@.rpos as int),
            ),
            Err(_) => !(exists|m: T::Model, b: Seq<u8>|
                T::encodable(m) && T::accepts(m, old(loader)@.le, b) && old(
                    loader,
                )@.starts_with(b)),
        },
{
    T::load(loader)
}

/// Writes an unsigned 64-bit value as a LEB128 varint.
pub fn varint_save(saver: &mut ByteBuffer, value: &u64)
    ensures
        final(saver)@.data == old(saver)@.data + varint_enc(*value as nat),
        final(saver)@.rpos == old(saver)@.rpos,
        final(saver)@.le == old(saver)@.le,
{
    crate::varint::varint_write(saver, *value);
}

/// Reads a LEB128 varint back into 64 bits, rejecting one that carries
/// bits past the width.
pub fn varint_load(loader: &mut ByteBuffer) -> (r: Result<u64, String>)
    ensures
        final(loader)@.data == old(loader)@.data,
        final(loader)@.le == old(loader)@.le,
        final(loader)@.rpos >= old(loader)@.rpos,
        final(loader)@.rpos <= old(loader)@.data.len(),
        match r {
            Ok(v) => {
                let b = old(loader)@.data.subrange(
                    old(loader)@.rpos as int,
                    final(loader)@.rpos as int,
                );
                varint_fits(b, 64) && varint_value(b) == v as nat
            },
            Err(_) => !(exists|b: Seq<u8>| varint_fits(b, 64) && old(loader)@.starts_with(b)),
        },
{
    crate::varint::varint_read(loader, 64)
}

/// Writes a signed 64-bit value as a zigzag LEB128 varint.
pub fn varint_signed_save(saver: &mut ByteBuffer, value: &i64)
    ensures
        final(saver)@.data == old(saver)@.data + varint_enc(zigzag(*value as int)),
        final(saver)@.rpos == old(saver)@.rpos,
        final(saver)@.le == old(saver)@.le,
{
    crate::varint::varint_write_signed(saver, *value);
}

/// Reads a zigzag LEB128 varint back into a signed 64-bit value.
pub fn varint_signed_load(loader: &mut ByteBuffer) -> (r: Result<i64, String>)
    ensures
        final(loader)@.data == old(loader)@.data,
        final(loader)@.le == old(loader)@.le,
        final(loader)@.rpos >= old(loader)@.rpos,
        final(loader)@.rpos <= old(loader)@.data.len(),
        match r {
            Ok(v) => {
                let b = old(loader)@.data.subrange(
                    old(loader)@.rpos as int,
                    final(loader)@.rpos as int,
                );
                varint_fits(b, 64) && varint_value(b) == zigzag(v as int)
            },
            Err(_) => !(exists|b: Seq<u8>| varint_fits(b, 64) && old(loader)@.starts_with(b)),
        },
{
    crate::varint::varint_read_signed(loader)
}

} // verus!

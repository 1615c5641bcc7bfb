//! Byte-level encodings of the fixed-width integers, shared by the buffer
//! and by the `Savable` implementations: every multi-byte integer is laid
//! down least-significant-byte first when the buffer is little-endian and
//! most-significant-byte first otherwise.
use vstd::prelude::*;

verus! {

/// The single byte a `bool` is stored as.
pub open spec fn bool_byte(b: bool) -> u8 {
    if b {
        1u8
    } else {
        0u8
    }
}

/// The two bytes of a `u16`, in the order selected by `le`.
pub open spec fn bytes2(v: u16, le: bool) -> Seq<u8> {
    let lo = (v % 256) as u8;
    let hi = (v / 256) as u8;
    if le {
        seq![lo, hi]
    } else {
        seq![hi, lo]
    }
}

/// The four bytes of a `u32`, in the order selected by `le`.
pub open spec fn bytes4(v: u32, le: bool) -> Seq<u8> {
    let b0 = (v % 256) as u8;
    let b1 = ((v / 256) % 256) as u8;
    let b2 = ((v / 65536) % 256) as u8;
    let b3 = ((v / 16777216) % 256) as u8;
    if le {
        seq![b0, b1, b2, b3]
    } else {
        seq![b3, b2, b1, b0]
    }
}

/// The eight bytes of a `u64`, in the order selected by `le`.
pub open spec fn bytes8(v: u64, le: bool) -> Seq<u8> {
    let b0 = (v % 256) as u8;
    let b1 = ((v / 0x100) % 256) as u8;
    let b2 = ((v / 0x10000) % 256) as u8;
    let b3 = ((v / 0x1000000) % 256) as u8;
    let b4 = ((v / 0x100000000) % 256) as u8;
    let b5 = ((v / 0x10000000000) % 256) as u8;
    let b6 = ((v / 0x1000000000000) % 256) as u8;
    let b7 = ((v / 0x100000000000000) % 256) as u8;
    if le {
        seq![b0, b1, b2, b3, b4, b5, b6, b7]
    } else {
        seq![b7, b6, b5, b4, b3, b2, b1, b0]
    }
}

/// The two's-complement reading of an `i8` as a `u8`.
pub open spec fn u8_of_i8(v: i8) -> u8 {
    ((v as int) % 256) as u8
}

/// The two's-complement reading of an `i16` as a `u16`.
pub open spec fn u16_of_i16(v: i16) -> u16 {
    ((v as int) % 0x10000) as u16
}

/// The two's-complement reading of an `i32` as a `u32`.
pub open spec fn u32_of_i32(v: i32) -> u32 {
    ((v as int) % 0x100000000) as u32
}

/// The two's-complement reading of an `i64` as a `u64`.
pub open spec fn u64_of_i64(v: i64) -> u64 {
    ((v as int) % 0x10000000000000000) as u64
}

/// How the Euclidean remainder reads a two's-complement value.
proof fn lemma_signed_mod(v: int, m: int)
    requires
        m > 0,
        -m <= v < m,
    ensures
        v % m == if v >= 0 {
            v
        } else {
            v + m
        },
{
    if v >= 0 {
        vstd::arithmetic::div_mod::lemma_small_mod(v as nat, m as nat);
    } else {
        vstd::arithmetic::div_mod::lemma_mod_add_multiples_vanish(v, m);
        vstd::arithmetic::div_mod::lemma_small_mod((v + m) as nat, m as nat);
    }
}

pub proof fn lemma_u8_of_i8_injective(v1: i8, v2: i8)
    requires
        u8_of_i8(v1) == u8_of_i8(v2),
    ensures
        v1 == v2,
{
    lemma_signed_mod(v1 as int, 256);
    lemma_signed_mod(v2 as int, 256);
}

pub proof fn lemma_u16_of_i16_injective(v1: i16, v2: i16)
    requires
        u16_of_i16(v1) == u16_of_i16(v2),
    ensures
        v1 == v2,
{
    lemma_signed_mod(v1 as int, 0x10000);
    lemma_signed_mod(v2 as int, 0x10000);
}

pub proof fn lemma_u32_of_i32_injective(v1: i32, v2: i32)
    requires
        u32_of_i32(v1) == u32_of_i32(v2),
    ensures
        v1 == v2,
{
    lemma_signed_mod(v1 as int, 0x100000000);
    lemma_signed_mod(v2 as int, 0x100000000);
}

pub proof fn lemma_u64_of_i64_injective(v1: i64, v2: i64)
    requires
        u64_of_i64(v1) == u64_of_i64(v2),
    ensures
        v1 == v2,
{
    lemma_signed_mod(v1 as int, 0x10000000000000000);
    lemma_signed_mod(v2 as int, 0x10000000000000000);
}

pub proof fn lemma_bytes2_injective(v1: u16, v2: u16, le: bool)
    requires
        bytes2(v1, le) == bytes2(v2, le),
    ensures
        v1 == v2,
{
    assert(bytes2(v1, le)[0] == bytes2(v2, le)[0]);
    assert(bytes2(v1, le)[1] == bytes2(v2, le)[1]);
    assert(v1 == (v1 % 256) + 256 * (v1 / 256));
    assert(v2 == (v2 % 256) + 256 * (v2 / 256));
}

pub proof fn lemma_bytes4_injective(v1: u32, v2: u32, le: bool)
    requires
        bytes4(v1, le) == bytes4(v2, le),
    ensures
        v1 == v2,
{
    assert(bytes4(v1, le)[0] == bytes4(v2, le)[0]);
    assert(bytes4(v1, le)[1] == bytes4(v2, le)[1]);
    assert(bytes4(v1, le)[2] == bytes4(v2, le)[2]);
    assert(bytes4(v1, le)[3] == bytes4(v2, le)[3]);
    assert(v1 == (v1 % 256) + 256 * ((v1 / 256) % 256) + 65536 * ((v1 / 65536) % 256) + 16777216
        * ((v1 / 16777216) % 256)) by (nonlinear_arith);
    assert(v2 == (v2 % 256) + 256 * ((v2 / 256) % 256) + 65536 * ((v2 / 65536) % 256) + 16777216
        * ((v2 / 16777216) % 256)) by (nonlinear_arith);
}

/// Reads the eight base-256 digits back out of their weighted sum.
pub proof fn lemma_u64_digits(
    v: int,
    x0: u8,
    x1: u8,
    x2: u8,
    x3: u8,
    x4: u8,
    x5: u8,
    x6: u8,
    x7: u8,
)
    requires
        v == x0 + 0x100 * (x1 as int) + 0x10000 * (x2 as int) + 0x1000000 * (x3 as int)
            + 0x100000000 * (x4 as int) + 0x10000000000 * (x5 as int) + 0x1000000000000 * (x6
            as int) + 0x100000000000000 * (x7 as int),
    ensures
        0 <= v < 0x10000000000000000,
        v % 0x100 == x0,
        (v / 0x100) % 0x100 == x1,
        (v / 0x10000) % 0x100 == x2,
        (v / 0x1000000) % 0x100 == x3,
        (v / 0x100000000) % 0x100 == x4,
        (v / 0x10000000000) % 0x100 == x5,
        (v / 0x1000000000000) % 0x100 == x6,
        (v / 0x100000000000000) % 0x100 == x7,
{
    let h7 = x7 as int;
    let h6 = x6 + 0x100 * h7;
    let h5 = x5 + 0x100 * h6;
    let h4 = x4 + 0x100 * h5;
    let h3 = x3 + 0x100 * h4;
    let h2 = x2 + 0x100 * h3;
    let h1 = x1 + 0x100 * h2;
    assert(v == x0 + 0x100 * h1);
    vstd::arithmetic::div_mod::lemma_fundamental_div_mod_converse(v, 0x100, h1, x0 as int);
    vstd::arithmetic::div_mod::lemma_fundamental_div_mod_converse(h1, 0x100, h2, x1 as int);
    vstd::arithmetic::div_mod::lemma_fundamental_div_mod_converse(h2, 0x100, h3, x2 as int);
    vstd::arithmetic::div_mod::lemma_fundamental_div_mod_converse(h3, 0x100, h4, x3 as int);
    vstd::arithmetic::div_mod::lemma_fundamental_div_mod_converse(h4, 0x100, h5, x4 as int);
    vstd::arithmetic::div_mod::lemma_fundamental_div_mod_converse(h5, 0x100, h6, x5 as int);
    vstd::arithmetic::div_mod::lemma_fundamental_div_mod_converse(h6, 0x100, h7, x6 as int);
    vstd::arithmetic::div_mod::lemma_small_mod(x7 as nat, 0x100);
    vstd::arithmetic::div_mod::lemma_div_denominator(v, 0x100, 0x100);
    vstd::arithmetic::div_mod::lemma_div_denominator(v, 0x10000, 0x100);
    vstd::arithmetic::div_mod::lemma_div_denominator(v, 0x1000000, 0x100);
    vstd::arithmetic::div_mod::lemma_div_denominator(v, 0x100000000, 0x100);
    vstd::arithmetic::div_mod::lemma_div_denominator(v, 0x10000000000, 0x100);
    vstd::arithmetic::div_mod::lemma_div_denominator(v, 0x1000000000000, 0x100);
}

#[verifier::rlimit(50)]
pub proof fn lemma_bytes8_injective(v1: u64, v2: u64, le: bool)
    requires
        bytes8(v1, le) == bytes8(v2, le),
    ensures
        v1 == v2,
{
    assert(forall|i: int| 0 <= i < 8 ==> bytes8(v1, le)[i] == bytes8(v2, le)[i]);
    lemma_u64_byte_sum(v1);
    lemma_u64_byte_sum(v2);
}

proof fn lemma_u64_byte_sum(v: u64)
    ensures
        v == (v % 256) + 0x100 * ((v / 0x100) % 256) + 0x10000 * ((v / 0x10000) % 256) + 0x1000000
            * ((v / 0x1000000) % 256) + 0x100000000 * ((v / 0x100000000) % 256) + 0x10000000000 * ((
        v / 0x10000000000) % 256) + 0x1000000000000 * ((v / 0x1000000000000) % 256)
            + 0x100000000000000 * ((v / 0x100000000000000) % 256),
{
    let x = v as int;
    vstd::arithmetic::div_mod::lemma_fundamental_div_mod(x, 0x100);
    vstd::arithmetic::div_mod::lemma_fundamental_div_mod(x / 0x100, 0x100);
    vstd::arithmetic::div_mod::lemma_fundamental_div_mod(x / 0x10000, 0x100);
    vstd::arithmetic::div_mod::lemma_fundamental_div_mod(x / 0x1000000, 0x100);
    vstd::arithmetic::div_mod::lemma_fundamental_div_mod(x / 0x100000000, 0x100);
    vstd::arithmetic::div_mod::lemma_fundamental_div_mod(x / 0x10000000000, 0x100);
    vstd::arithmetic::div_mod::lemma_fundamental_div_mod(x / 0x1000000000000, 0x100);
    vstd::arithmetic::div_mod::lemma_div_denominator(x, 0x100, 0x100);
    vstd::arithmetic::div_mod::lemma_div_denominator(x, 0x10000, 0x100);
    vstd::arithmetic::div_mod::lemma_div_denominator(x, 0x1000000, 0x100);
    vstd::arithmetic::div_mod::lemma_div_denominator(x, 0x100000000, 0x100);
    vstd::arithmetic::div_mod::lemma_div_denominator(x, 0x10000000000, 0x100);
    vstd::arithmetic::div_mod::lemma_div_denominator(x, 0x1000000000000, 0x100);
    assert(x / 0x100000000000000 < 0x100) by (nonlinear_arith)
        requires
            0 <= x < 0x10000000000000000,
    ;
    vstd::arithmetic::div_mod::lemma_small_mod((x / 0x100000000000000) as nat, 0x100);
}

} // verus!

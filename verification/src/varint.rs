//! LEB128 variable-length integers: seven bits per byte, least-significant
//! group first, with the high bit of a byte set when more groups follow.
//! Signed values go through the zigzag transform first so that small
//! magnitudes stay short.
use crate::buffer::ByteBuffer;
use vstd::arithmetic::power2::pow2;
use vstd::prelude::*;

verus! {

/// The canonical (shortest) LEB128 encoding of an unsigned value.
pub open spec fn varint_enc(n: nat) -> Seq<u8>
    decreases n,
{
    if n < 0x80 {
        seq![n as u8]
    } else {
        seq![(0x80 + (n % 0x80)) as u8] + varint_enc(n / 0x80)
    }
}

/// A complete group sequence: every byte but the last marks a continuation,
/// the last one does not.
pub open spec fn varint_frame(b: Seq<u8>) -> bool {
    &&& b.len() >= 1
    &&& (forall|i: int| 0 <= i < b.len() - 1 ==> b[i] >= 0x80)
    &&& b[b.len() - 1] < 0x80
}

/// The value a group sequence accumulates to, low groups first.
pub open spec fn varint_value(b: Seq<u8>) -> nat
    decreases b.len(),
{
    if b.len() == 0 {
        0
    } else {
        ((b[0] as nat) % 0x80) + 0x80 * varint_value(b.drop_first())
    }
}

/// The group sequences a `bits`-wide decoder accepts: a complete frame whose
/// shifts stay inside the width and whose value fits it. Trailing zero
/// groups are allowed, so one value may have several accepted spellings;
/// `varint_enc` is the canonical one.
pub open spec fn varint_fits(b: Seq<u8>, bits: nat) -> bool {
    &&& varint_frame(b)
    &&& 7 * (b.len() - 1) < bits
    &&& varint_value(b) < pow2(bits)
}

/// The zigzag image of a signed value: non-negative `v` becomes `2v`,
/// negative `v` becomes `-2v - 1`.
pub open spec fn zigzag(v: int) -> nat {
    if v >= 0 {
        (2 * v) as nat
    } else {
        (-2 * v - 1) as nat
    }
}

/// The platform word width: the varint decoder's bit budget for `usize`
/// and `isize`.
pub open spec fn usize_bits() -> nat {
    usize::BITS as nat
}

/// What the word width says about the extreme values of `usize` and `isize`.
pub proof fn lemma_usize_width()
    ensures
        usize_bits() == 32 || usize_bits() == 64,
        pow2(usize_bits()) == usize::MAX as nat + 1,
        isize::MAX as int == pow2((usize_bits() - 1) as nat) - 1,
        isize::MIN as int == -(pow2((usize_bits() - 1) as nat) as int),
{
    vstd::layout::unsigned_int_max_values();
    vstd::layout::signed_int_min_max_values();
    vstd::arithmetic::power2::lemma2_to64();
    assert(isize::BITS == usize::BITS);
    assert(vstd::math::abs(isize::MIN as int) == pow2((isize::BITS - 1) as nat));
}

/// The canonical encoding carries exactly its value and is a frame.
pub proof fn lemma_varint_enc_ok(n: nat)
    ensures
        varint_frame(varint_enc(n)),
        varint_value(varint_enc(n)) == n,
        varint_enc(n).len() >= 1,
    decreases n,
{
    if n < 0x80 {
        assert(varint_value(varint_enc(n)) == (n % 0x80) + 0x80 * varint_value(
            varint_enc(n).drop_first(),
        ));
        assert(varint_enc(n).drop_first() =~= Seq::<u8>::empty());
        vstd::arithmetic::div_mod::lemma_small_mod(n, 0x80);
    } else {
        lemma_varint_enc_ok(n / 0x80);
        let e = varint_enc(n);
        let rest = varint_enc(n / 0x80);
        assert(e == seq![(0x80 + (n % 0x80)) as u8] + rest);
        assert(e.drop_first() =~= rest);
        assert(e[e.len() - 1] == rest[rest.len() - 1]);
        assert(forall|i: int|
            1 <= i < e.len() - 1 ==> e[i] == rest[i - 1] && #[trigger] rest[i - 1] >= 0x80
                ==> e[i] >= 0x80);
        assert((e[0] as nat) % 0x80 == n % 0x80) by {
            vstd::arithmetic::div_mod::lemma_mod_bound(n as int, 0x80);
            assert(e[0] as nat == 0x80 + (n % 0x80));
            assert((0x80 + (n % 0x80)) % 0x80 == n % 0x80) by {
                vstd::arithmetic::div_mod::lemma_mod_add_multiples_vanish((n % 0x80) as int, 0x80);
            }
        }
        assert(varint_value(e) == (n % 0x80) + 0x80 * (n / 0x80));
        vstd::arithmetic::div_mod::lemma_fundamental_div_mod(n as int, 0x80);
    }
}

/// If the value fits `bits`, the canonical encoding's shifts stay inside it.
pub proof fn lemma_varint_enc_fits(n: nat, bits: nat)
    requires
        bits >= 1,
        n < pow2(bits),
    ensures
        varint_fits(varint_enc(n), bits),
    decreases n,
{
    lemma_varint_enc_ok(n);
    if n < 0x80 {
    } else {
        assert(bits > 7) by {
            if bits < 7 {
                vstd::arithmetic::power2::lemma_pow2_strictly_increases(bits, 7);
            }
            vstd::arithmetic::power2::lemma2_to64();
        }
        assert(n / 0x80 < pow2((bits - 7) as nat)) by {
            assert(pow2(bits) == 0x80 * pow2((bits - 7) as nat)) by {
                vstd::arithmetic::power2::lemma_pow2_adds(7, (bits - 7) as nat);
                vstd::arithmetic::power2::lemma2_to64();
            }
            vstd::arithmetic::div_mod::lemma_multiply_divide_lt(
                n as int,
                0x80,
                pow2((bits - 7) as nat) as int,
            );
        }
        lemma_varint_enc_fits(n / 0x80, (bits - 7) as nat);
        assert(varint_enc(n).len() == varint_enc(n / 0x80).len() + 1);
    }
}

/// Two complete frames that open the same byte stream are the same frame.
pub proof fn lemma_varint_frame_unambiguous(b1: Seq<u8>, b2: Seq<u8>, t1: Seq<u8>, t2: Seq<u8>)
    requires
        varint_frame(b1),
        varint_frame(b2),
        b1 + t1 == b2 + t2,
    ensures
        b1 == b2,
    decreases b1.len(),
{
    assert(b1[0] == (b1 + t1)[0]);
    assert(b2[0] == (b2 + t2)[0]);
    if b1.len() == 1 {
        if b2.len() > 1 {
            assert(b2[0] >= 0x80);
            assert(b1[0] < 0x80);
        }
        assert(b1 =~= b2);
    } else {
        assert(b1[0] >= 0x80);
        if b2.len() == 1 {
            assert(b2[0] < 0x80);
        }
        let c1 = b1.drop_first();
        let c2 = b2.drop_first();
        assert(varint_frame(c1)) by {
            assert(c1[c1.len() - 1] == b1[b1.len() - 1]);
        }
        assert(varint_frame(c2)) by {
            assert(c2[c2.len() - 1] == b2[b2.len() - 1]);
        }
        assert(b1.len() + t1.len() == b2.len() + t2.len()) by {
            assert((b1 + t1).len() == b1.len() + t1.len());
            assert((b2 + t2).len() == b2.len() + t2.len());
            assert((b1 + t1).len() == (b2 + t2).len());
        }
        assert forall|i: int| 0 <= i < c1.len() + t1.len() implies (c1 + t1)[i] == (c2 + t2)[i] by {
            assert(c1.len() + t1.len() == c2.len() + t2.len());
            assert((b1 + t1)[i + 1] == (b2 + t2)[i + 1]);
            if i < c1.len() {
                assert((c1 + t1)[i] == c1[i]);
                assert(c1[i] == b1[i + 1]);
                assert((b1 + t1)[i + 1] == b1[i + 1]);
            } else {
                assert((c1 + t1)[i] == t1[i - c1.len()]);
                assert((b1 + t1)[i + 1] == t1[i + 1 - b1.len()]);
            }
            if i < c2.len() {
                assert((c2 + t2)[i] == c2[i]);
                assert(c2[i] == b2[i + 1]);
                assert((b2 + t2)[i + 1] == b2[i + 1]);
            } else {
                assert((c2 + t2)[i] == t2[i - c2.len()]);
                assert((b2 + t2)[i + 1] == t2[i + 1 - b2.len()]);
            }
        }
        assert(c1 + t1 =~= c2 + t2);
        lemma_varint_frame_unambiguous(c1, c2, t1, t2);
        assert(b1.len() == b2.len());
        assert forall|i: int| 0 <= i < b1.len() implies b1[i] == b2[i] by {
            if i > 0 {
                assert(c1[i - 1] == b1[i]);
                assert(c2[i - 1] == b2[i]);
            }
        }
        assert(b1 =~= b2);
    }
}

/// Splitting a group sequence splits its value at the matching power of two.
pub proof fn lemma_varint_value_split(c: Seq<u8>, d: Seq<u8>)
    ensures
        varint_value(c + d) == varint_value(c) + pow2(7 * c.len()) * varint_value(d),
    decreases c.len(),
{
    if c.len() == 0 {
        assert(c + d =~= d);
        vstd::arithmetic::power2::lemma2_to64();
        assert(varint_value(c) == 0);
        assert(pow2(7 * c.len()) == 1);
        assert(1 * varint_value(d) == varint_value(d));
    } else {
        let c1 = c.drop_first();
        assert((c + d).drop_first() =~= c1 + d);
        lemma_varint_value_split(c1, d);
        let g0 = (c[0] as nat) % 0x80;
        let p1 = pow2(7 * c1.len());
        let vd = varint_value(d);
        assert((c + d)[0] == c[0]);
        assert(varint_value(c + d) == g0 + 0x80 * (varint_value(c1) + p1 * vd));
        assert(0x80 * (varint_value(c1) + p1 * vd) == 0x80 * varint_value(c1) + 0x80 * (p1
            * vd)) by {
            vstd::arithmetic::mul::lemma_mul_is_distributive_add(
                0x80,
                varint_value(c1) as int,
                (p1 * vd) as int,
            );
        }
        assert(0x80 * (p1 * vd) == (0x80 * p1) * vd) by {
            vstd::arithmetic::mul::lemma_mul_is_associative(0x80, p1 as int, vd as int);
        }
        assert(0x80 * p1 == pow2(7 * c.len())) by {
            vstd::arithmetic::power2::lemma_pow2_adds(7, 7 * c1.len());
            vstd::arithmetic::power2::lemma2_to64();
        }
    }
}

/// A sequence of `k` groups never reaches `2^(7k)`.
pub proof fn lemma_varint_value_bound(c: Seq<u8>)
    ensures
        varint_value(c) < pow2(7 * c.len()),
    decreases c.len(),
{
    vstd::arithmetic::power2::lemma2_to64();
    if c.len() == 0 {
    } else {
        let c1 = c.drop_first();
        lemma_varint_value_bound(c1);
        assert(0x80 * varint_value(c1) <= 0x80 * (pow2(7 * c1.len()) - 1)) by {
            vstd::arithmetic::mul::lemma_mul_inequality(
                varint_value(c1) as int,
                pow2(7 * c1.len()) - 1,
                0x80,
            );
        }
        assert(0x80 * (pow2(7 * c1.len()) - 1) == 0x80 * pow2(7 * c1.len()) - 0x80) by {
            vstd::arithmetic::mul::lemma_mul_is_distributive_sub(
                0x80,
                pow2(7 * c1.len()) as int,
                1,
            );
        }
        assert(0x80 * pow2(7 * c1.len()) == pow2(7 * c.len())) by {
            vstd::arithmetic::power2::lemma_pow2_adds(7, 7 * c1.len());
        }
    }
}

/// Writes the canonical LEB128 bytes of `value`.
pub fn varint_write(saver: &mut ByteBuffer, value: u64)
    ensures
        final(saver)@.data == old(saver)@.data + varint_enc(value as nat),
        final(saver)@.rpos == old(saver)@.rpos,
        final(saver)@.le == old(saver)@.le,
{
    let ghost target = old(saver)@.data + varint_enc(value as nat);
    let mut v = value;
    while v >= 0x80
        invariant
            saver@.rpos == old(saver)@.rpos,
            saver@.le == old(saver)@.le,
            saver@.data + varint_enc(v as nat) == target,
        decreases v,
    {
        let byte: u8 = 0x80 + (v % 0x80) as u8;
        saver.push_u8(byte);
        proof {
            assert(varint_enc(v as nat) == seq![byte] + varint_enc((v as nat) / 0x80));
            assert((v / 0x80) as nat == (v as nat) / 0x80);
            assert(saver@.data + varint_enc((v / 0x80) as nat) =~= target);
        }
        v = v / 0x80;
    }
    saver.push_u8(v as u8);
    proof {
        assert(varint_enc(v as nat) == seq![v as u8]);
        assert(saver@.data =~= target);
    }
}

/// Reads a LEB128 value for a `bits`-wide integer: fails when the bytes run
/// out mid-frame, when a group would shift past the width, or when a group
/// carries bits past it.
pub fn varint_read(loader: &mut ByteBuffer, bits: u64) -> (r: Result<u64, String>)
    requires
        7 <= bits <= 64,
    ensures
        final(loader)@.data == old(loader)@.data,
        final(loader)@.le == old(loader)@.le,
        final(loader)@.rpos >= old(loader)@.rpos,
        final(loader)@.rpos <= old(loader)@.data.len(),
        match r {
            Ok(v) => {
                &&& (v as nat) < pow2(bits as nat)
                &&& {
                    let b = old(loader)@.data.subrange(
                        old(loader)@.rpos as int,
                        final(loader)@.rpos as int,
                    );
                    &&& final(loader)@.rpos <= old(loader)@.data.len()
                    &&& varint_fits(b, bits as nat)
                    &&& varint_value(b) == v as nat
                }
            },
            Err(_) => !(exists|b: Seq<u8>|
                varint_fits(b, bits as nat) && old(loader)@.starts_with(b)),
        },
{
    proof {
        loader.lemma_rpos_bound();
    }
    let ghost start = loader@.rpos;
    proof {
        vstd::arithmetic::power2::lemma2_to64();
    }
    let mut result: u64 = 0;
    let mut shift: u64 = 0;
    let mut mult: u64 = 1;
    loop
        invariant
            7 <= bits <= 64,
            loader@.data == old(loader)@.data,
            loader@.le == old(loader)@.le,
            start == old(loader)@.rpos,
            start <= loader@.rpos <= loader@.data.len(),
            shift == 7 * (loader@.rpos - start),
            shift < bits ==> mult == pow2(shift as nat),
            forall|i: int| start <= i < loader@.rpos ==> loader@.data[i] >= 0x80,
            result as nat == varint_value(
                loader@.data.subrange(start as int, loader@.rpos as int),
            ),
        decreases loader@.data.len() - loader@.rpos,
    {
        let ghost consumed = loader@.data.subrange(start as int, loader@.rpos as int);
        proof {
            lemma_varint_value_bound(consumed);
        }
        if shift >= bits {
            proof {
                assert forall|b: Seq<u8>|
                    varint_fits(b, bits as nat) && old(loader)@.starts_with(b) implies false by {
                    if b.len() <= consumed.len() {
                        assert(b[b.len() - 1] == old(loader)@.data[start + b.len() - 1]);
                    } else {
                        assert(7 * (b.len() - 1) >= 7 * consumed.len());
                    }
                }
            }
            return Err("Varint larger than the target bit width".to_string());
        }
        match loader.pop_u8() {
            None => {
                proof {
                    assert forall|b: Seq<u8>|
                        varint_fits(b, bits as nat) && old(loader)@.starts_with(b) implies false by {
                        assert(b.len() >= 1);
                        assert(b.len() <= consumed.len());
                        assert(b[b.len() - 1] == old(loader)@.data[start + b.len() - 1]);
                    }
                }
                return Err("Failed to load varint from Loader!".to_string());
            },
            Some(byte) => {
                let group: u64 = (byte % 0x80) as u64;
                let ghost k = consumed.len();
                proof {
                    assert(loader@.data.subrange(start as int, loader@.rpos as int) =~= consumed
                        + seq![byte]);
                    lemma_varint_value_split(consumed, seq![byte]);
                    assert(varint_value(seq![byte]) == (byte as nat) % 0x80) by {
                        assert(seq![byte][0] == byte);
                        assert(seq![byte].drop_first() =~= Seq::<u8>::empty());
                        assert(varint_value(Seq::<u8>::empty()) == 0);
                    }
                }
                if bits - shift < 7 {
                    let limit: u64 = 1u64 << (bits - shift);
                    proof {
                        vstd::bits::lemma_u64_pow2_no_overflow((bits - shift) as nat);
                        vstd::bits::lemma_u64_shl_is_mul(1u64, (bits - shift) as u64);
                        vstd::arithmetic::power2::lemma2_to64();
                    }
                    if group >= limit {
                        proof {
                            lemma_no_wide_frame(
                                old(loader)@,
                                start as nat,
                                k as nat,
                                bits as nat,
                                byte,
                            );
                        }
                        return Err("Varint larger than the target bit width".to_string());
                    }
                }
                proof {
                    assert(group < 0x80);
                    let w: nat = if bits - shift < 7 {
                        (bits - shift) as nat
                    } else {
                        7
                    };
                    assert((group as nat) < pow2(w)) by {
                        vstd::arithmetic::power2::lemma2_to64();
                    }
                    lemma_accumulate_bound(
                        result as nat,
                        group as nat,
                        shift as nat,
                        bits as nat,
                    );
                    vstd::arithmetic::power2::lemma2_to64();
                    vstd::arithmetic::power2::lemma_pow2_strictly_increases(
                        bits as nat,
                        65,
                    );
                }
                let ghost r0 = result as nat;
                proof {
                    assert(r0 == varint_value(consumed));
                }
                result = result + group * mult;
                proof {
                    vstd::arithmetic::mul::lemma_mul_is_commutative(group as int, mult as int);
                    assert(result as nat == r0 + (group as nat) * (mult as nat));
                    assert(consumed.len() == loader@.rpos - 1 - start);
                    assert(7 * consumed.len() == shift as nat);
                    assert(mult == pow2(shift as nat));
                    assert((group as nat) == (byte as nat) % 0x80);
                    assert(varint_value(consumed + seq![byte]) == varint_value(consumed) + pow2(
                        7 * consumed.len(),
                    ) * varint_value(seq![byte]));
                    assert(varint_value(seq![byte]) == group as nat);
                    assert(varint_value(consumed + seq![byte]) == r0 + pow2(shift as nat) * (
                    group as nat));
                    assert(result as nat == r0 + pow2(shift as nat) * (group as nat));
                    assert(result as nat == varint_value(consumed + seq![byte]));
                    assert(loader@.data.subrange(start as int, loader@.rpos as int) == consumed
                        + seq![byte]);
                }
                if byte < 0x80 {
                    proof {
                        let b = old(loader)@.data.subrange(start as int, loader@.rpos as int);
                        assert(varint_frame(b)) by {
                            assert(b[b.len() - 1] == byte);
                        }
                        assert(7 * (b.len() - 1) == shift);
                        lemma_accumulate_bound(
                            (result - group * mult) as nat,
                            group as nat,
                            shift as nat,
                            bits as nat,
                        );
                    }
                    return Ok(result);
                }
                shift = shift + 7;
                if shift < bits {
                    proof {
                        vstd::arithmetic::power2::lemma_pow2_adds((shift - 7) as nat, 7);
                        vstd::arithmetic::power2::lemma2_to64();
                        vstd::arithmetic::power2::lemma_pow2_strictly_increases(
                            shift as nat,
                            64,
                        );
                    }
                    mult = mult * 0x80;
                }
            },
        }
    }
}

/// After `k` continuation groups, a group carrying bits at or past the width
/// rules out every accepted frame.
proof fn lemma_no_wide_frame(m: crate::buffer::BufModel, start: nat, k: nat, bits: nat, byte: u8)
    requires
        bits >= 7,
        7 * k < bits,
        bits - 7 * k < 7,
        start + k < m.data.len(),
        m.rpos == start,
        forall|i: int| start <= i < start + k ==> m.data[i] >= 0x80,
        m.data[start + k as int] == byte,
        ((byte as nat) % 0x80) >= pow2((bits - 7 * k) as nat),
    ensures
        !(exists|b: Seq<u8>| varint_fits(b, bits) && m.starts_with(b)),
{
    assert forall|b: Seq<u8>| varint_fits(b, bits) && m.starts_with(b) implies false by {
        if b.len() <= k {
            assert(b[b.len() - 1] == m.data[start + b.len() - 1]);
        } else {
            let c = b.take(k as int);
            let d = b.skip(k as int);
            assert(b =~= c + d);
            lemma_varint_value_split(c, d);
            assert(d[0] == b[k as int]);
            assert(b[k as int] == m.data[start + k as int]);
            assert(varint_value(d) >= (byte as nat) % 0x80);
            assert(varint_value(b) >= pow2(7 * k) * varint_value(d)) by {
                vstd::arithmetic::mul::lemma_mul_is_commutative(
                    pow2(7 * k) as int,
                    varint_value(d) as int,
                );
            }
            assert(pow2(7 * k) * varint_value(d) >= pow2(7 * k) * pow2((bits - 7 * k) as nat))
                by {
                vstd::arithmetic::mul::lemma_mul_inequality(
                    pow2((bits - 7 * k) as nat) as int,
                    varint_value(d) as int,
                    pow2(7 * k) as int,
                );
                vstd::arithmetic::mul::lemma_mul_is_commutative(
                    pow2(7 * k) as int,
                    varint_value(d) as int,
                );
                vstd::arithmetic::mul::lemma_mul_is_commutative(
                    pow2(7 * k) as int,
                    pow2((bits - 7 * k) as nat) as int,
                );
            }
            assert(pow2(7 * k) * pow2((bits - 7 * k) as nat) == pow2(bits)) by {
                vstd::arithmetic::power2::lemma_pow2_adds(7 * k, (bits - 7 * k) as nat);
            }
        }
    }
}

/// The running total stays under the width while groups keep fitting.
proof fn lemma_accumulate_bound(acc: nat, group: nat, shift: nat, bits: nat)
    requires
        shift < bits <= 64,
        acc < pow2(shift),
        group < pow2(if bits - shift < 7 {
            (bits - shift) as nat
        } else {
            7
        }),
    ensures
        acc + group * pow2(shift) < pow2(if bits - shift < 7 {
            bits
        } else {
            shift + 7
        }),
        acc + group * pow2(shift) < pow2(bits),
        acc + group * pow2(shift) < pow2(64),
{
    let w = if bits - shift < 7 {
        (bits - shift) as nat
    } else {
        7
    };
    assert(group + 1 <= pow2(w));
    assert((group + 1) * pow2(shift) <= pow2(w) * pow2(shift)) by {
        vstd::arithmetic::mul::lemma_mul_inequality(
            (group + 1) as int,
            pow2(w) as int,
            pow2(shift) as int,
        );
        vstd::arithmetic::mul::lemma_mul_is_commutative((group + 1) as int, pow2(shift) as int);
        vstd::arithmetic::mul::lemma_mul_is_commutative(pow2(w) as int, pow2(shift) as int);
    }
    assert((group + 1) * pow2(shift) == group * pow2(shift) + pow2(shift)) by {
        vstd::arithmetic::mul::lemma_mul_is_distributive_add_other_way(
            pow2(shift) as int,
            group as int,
            1,
        );
    }
    assert(pow2(w) * pow2(shift) == pow2(w + shift)) by {
        vstd::arithmetic::power2::lemma_pow2_adds(w, shift);
    }
    if w + shift < bits {
        vstd::arithmetic::power2::lemma_pow2_strictly_increases(w + shift, bits);
    }
    if bits < 64 {
        vstd::arithmetic::power2::lemma_pow2_strictly_increases(bits, 64);
    }
}

/// Writes a signed value: zigzag first, then the canonical LEB128 bytes.
pub fn varint_write_signed(saver: &mut ByteBuffer, value: i64)
    ensures
        final(saver)@.data == old(saver)@.data + varint_enc(zigzag(value as int)),
        final(saver)@.rpos == old(saver)@.rpos,
        final(saver)@.le == old(saver)@.le,
{
    let z: u64 = if value >= 0 {
        (value as u64) * 2
    } else {
        ((-(value + 1)) as u64) * 2 + 1
    };
    assert(z as nat == zigzag(value as int));
    varint_write(saver, z);
}

/// Reads a zigzag LEB128 value back into a signed 64-bit integer.
pub fn varint_read_signed(loader: &mut ByteBuffer) -> (r: Result<i64, String>)
    ensures
        final(loader)@.data == old(loader)@.data,
        final(loader)@.le == old(loader)@.le,
        final(loader)@.rpos >= old(loader)@.rpos,
        final(loader)@.rpos <= old(loader)@.data.len(),
        match r {
            Ok(v) => {
                let b = old(loader)@.data.subrange(
                    old(loader)@.rpos as int,
                    final(loader)@.rpos as int,
                );
                &&& final(loader)@.rpos <= old(loader)@.data.len()
                &&& varint_fits(b, 64)
                &&& varint_value(b) == zigzag(v as int)
            },
            Err(_) => !(exists|b: Seq<u8>| varint_fits(b, 64) && old(loader)@.starts_with(b)),
        },
{
    match varint_read(loader, 64) {
        Err(e) => Err(e),
        Ok(u) => {
            let v: i64 = if u % 2 == 0 {
                (u / 2) as i64
            } else {
                -((u / 2) as i64) - 1
            };
            assert(zigzag(v as int) == u as nat);
            Ok(v)
        },
    }
}

} // verus!

//! The structural layer: what a generated implementation for a record or a
//! tagged union must do. A `Schema` describes a type's shape — its fields,
//! each normal, unsaved or custom, and its variants — and one pair of
//! functions saves and loads any value of that shape. Both sides walk the
//! same schema in the same order, so the one load-bearing ordering rule
//! holds by construction rather than by convention.
use crate::buffer::ByteBuffer;
use crate::custom::{str8_bytes, string8_load, string8_save};
use crate::wire::{bool_byte, bytes2, bytes4, u32_of_i32};
use vstd::prelude::*;
use vstd::utf8::encode_utf8;

verus! {

/// A dynamic value: the shapes the structural rules speak about.
pub enum Value {
    VBool(bool),
    VU32(u32),
    VI32(i32),
    VStr(String),
    VRec(Vec<Value>),
    VEnum(u32, Vec<Value>),
}

/// The mathematical reading of a dynamic value.
pub enum GValue {
    GBool(bool),
    GU32(u32),
    GI32(i32),
    GStr(Seq<char>),
    GRec(Seq<GValue>),
    GEnum(nat, Seq<GValue>),
}

/// The models of a list of values.
pub open spec fn vmodels(vs: Seq<Value>) -> Seq<GValue>
    decreases vs,
{
    if vs.len() == 0 {
        Seq::empty()
    } else {
        seq![vmodel(vs[0])] + vmodels(vs.drop_first())
    }
}

/// The model of one value.
pub open spec fn vmodel(v: Value) -> GValue
    decreases v,
{
    match v {
        Value::VBool(b) => GValue::GBool(b),
        Value::VU32(x) => GValue::GU32(x),
        Value::VI32(x) => GValue::GI32(x),
        Value::VStr(s) => GValue::GStr(s@),
        Value::VRec(fs) => GValue::GRec(vmodels(fs@)),
        Value::VEnum(d, fs) => GValue::GEnum(d as nat, vmodels(fs@)),
    }
}

/// The reusable custom codecs a field can be put under.
pub enum CustomCodec {
    /// A string under a one-byte length, truncated past 255 bytes.
    Str8,
    /// A signed integer written three times and read back by majority: a
    /// self-checking redundant encoding.
    I32Triple,
}

/// How one field takes part in the stream.
pub enum FieldRule {
    /// Written and read with the field type's own codec.
    Normal,
    /// Never on the wire; loading fills in this default.
    Unsaved(Box<Value>),
    /// Written and read by the named custom codec.
    Custom(CustomCodec),
}

pub struct FieldSchema {
    pub rule: FieldRule,
    pub ty: Schema,
}

pub struct RecordSchema {
    /// Whether the fields carry names. Fields of an unnamed (tuple-like)
    /// record cannot be unsaved: a positional field cannot be skipped.
    pub named: bool,
    pub fields: Vec<FieldSchema>,
}

pub struct EnumSchema {
    /// Encode the discriminant as a LEB128 varint instead of a fixed width.
    pub varint: bool,
    pub variants: Vec<RecordSchema>,
}

/// A type's shape, as a code generator would read it off the declaration.
pub enum Schema {
    SBool,
    SU32,
    SI32,
    SStr,
    SRec(RecordSchema),
    SEnum(EnumSchema),
}

/// A well-formed schema: unsaved fields only in named records, custom
/// codecs only on the field types they are written for, and a variant
/// count a four-byte discriminant can address. A shape that breaks these
/// rules is refused before any value is written — the build-time failure
/// the structural rules call for.
pub open spec fn schema_ok(s: Schema) -> bool
    decreases s,
{
    match s {
        Schema::SBool => true,
        Schema::SU32 => true,
        Schema::SI32 => true,
        Schema::SStr => true,
        Schema::SRec(r) => fields_ok(r.fields@, r.named),
        Schema::SEnum(e) => e.variants@.len() < 0x100000000 && variants_ok(e.variants@),
    }
}

pub open spec fn variants_ok(vs: Seq<RecordSchema>) -> bool
    decreases vs,
{
    if vs.len() == 0 {
        true
    } else {
        fields_ok(vs[0].fields@, vs[0].named) && variants_ok(vs.drop_first())
    }
}

pub open spec fn fields_ok(fs: Seq<FieldSchema>, named: bool) -> bool
    decreases fs,
{
    if fs.len() == 0 {
        true
    } else {
        field_ok(fs[0], named) && fields_ok(fs.drop_first(), named)
    }
}

pub open spec fn field_ok(f: FieldSchema, named: bool) -> bool
    decreases f,
{
    match f.rule {
        FieldRule::Normal => schema_ok(f.ty),
        FieldRule::Unsaved(d) => named && conforms(vmodel(*d), f.ty),
        FieldRule::Custom(c) => match c {
            CustomCodec::Str8 => f.ty is SStr,
            CustomCodec::I32Triple => f.ty is SI32,
        },
    }
}

/// Whether a value has the shape a schema describes.
pub open spec fn conforms(g: GValue, s: Schema) -> bool
    decreases s,
{
    match s {
        Schema::SBool => g is GBool,
        Schema::SU32 => g is GU32,
        Schema::SI32 => g is GI32,
        Schema::SStr => g is GStr,
        Schema::SRec(r) => g matches GValue::GRec(gs) && fields_conform(gs, r.fields@),
        Schema::SEnum(e) => g matches GValue::GEnum(d, gs) && d < e.variants@.len()
            && fields_conform(gs, e.variants@[d as int].fields@),
    }
}

pub open spec fn fields_conform(gs: Seq<GValue>, fs: Seq<FieldSchema>) -> bool
    decreases fs,
{
    if fs.len() == 0 {
        gs.len() == 0
    } else {
        gs.len() == fs.len() && field_conforms(gs[0], fs[0]) && fields_conform(
            gs.drop_first(),
            fs.drop_first(),
        )
    }
}

pub open spec fn field_conforms(g: GValue, f: FieldSchema) -> bool
    decreases f,
{
    match f.rule {
        FieldRule::Custom(c) => match c {
            CustomCodec::Str8 => g is GStr,
            CustomCodec::I32Triple => g is GI32,
        },
        _ => conforms(g, f.ty),
    }
}

/// Whether every length in the value fits its prefix, so that saving is
/// total.
pub open spec fn writable(g: GValue, s: Schema) -> bool
    decreases s,
{
    match s {
        Schema::SStr => g matches GValue::GStr(t) ==> encode_utf8(t).len() < 0x100000000,
        Schema::SRec(r) => g matches GValue::GRec(gs) ==> fields_writable(gs, r.fields@),
        Schema::SEnum(e) => g matches GValue::GEnum(d, gs) ==> (d < e.variants@.len()
            ==> fields_writable(gs, e.variants@[d as int].fields@)),
        _ => true,
    }
}

pub open spec fn fields_writable(gs: Seq<GValue>, fs: Seq<FieldSchema>) -> bool
    decreases fs,
{
    if fs.len() == 0 || gs.len() == 0 {
        true
    } else {
        field_writable(gs[0], fs[0]) && fields_writable(gs.drop_first(), fs.drop_first())
    }
}

pub open spec fn field_writable(g: GValue, f: FieldSchema) -> bool
    decreases f,
{
    match f.rule {
        FieldRule::Normal => writable(g, f.ty),
        FieldRule::Unsaved(_) => true,
        FieldRule::Custom(_) => true,
    }
}

/// The discriminant bytes for variant `d` of a union with `count`
/// variants: one byte below 256 variants, two below 65536, four beyond.
pub open spec fn disc_bytes(d: nat, count: nat, le: bool) -> Seq<u8> {
    if count < 256 {
        seq![d as u8]
    } else if count < 65536 {
        bytes2(d as u16, le)
    } else {
        bytes4(d as u32, le)
    }
}

/// The width-selection rule at its boundaries: exactly 255 variants still
/// fit one discriminant byte, 256 need two; 65535 still fit two bytes,
/// 65536 need four. The comparison is strict, so a full one-byte range
/// leaves no room for the next variant.
pub proof fn lemma_discriminant_width(d: nat, count: nat, le: bool)
    requires
        d < count,
    ensures
        count <= 255 ==> disc_bytes(d, count, le).len() == 1,
        256 <= count <= 65535 ==> disc_bytes(d, count, le).len() == 2,
        count >= 65536 ==> disc_bytes(d, count, le).len() == 4,
{
}

/// The canonical bytes of a value under a schema.
pub open spec fn v_enc(g: GValue, s: Schema, le: bool) -> Seq<u8>
    decreases s,
{
    match s {
        Schema::SBool => match g {
            GValue::GBool(b) => seq![bool_byte(b)],
            _ => Seq::empty(),
        },
        Schema::SU32 => match g {
            GValue::GU32(x) => bytes4(x, le),
            _ => Seq::empty(),
        },
        Schema::SI32 => match g {
            GValue::GI32(x) => bytes4(u32_of_i32(x), le),
            _ => Seq::empty(),
        },
        Schema::SStr => match g {
            GValue::GStr(t) => bytes4(encode_utf8(t).len() as u32, le) + encode_utf8(t),
            _ => Seq::empty(),
        },
        Schema::SRec(r) => match g {
            GValue::GRec(gs) => fields_enc(gs, r.fields@, le),
            _ => Seq::empty(),
        },
        Schema::SEnum(e) => match g {
            GValue::GEnum(d, gs) => if d < e.variants@.len() {
                (if e.varint {
                    crate::varint::varint_enc(d)
                } else {
                    disc_bytes(d, e.variants@.len(), le)
                }) + fields_enc(gs, e.variants@[d as int].fields@, le)
            } else {
                Seq::empty()
            },
            _ => Seq::empty(),
        },
    }
}

pub open spec fn fields_enc(gs: Seq<GValue>, fs: Seq<FieldSchema>, le: bool) -> Seq<u8>
    decreases fs,
{
    if fs.len() == 0 || gs.len() == 0 {
        Seq::empty()
    } else {
        field_enc(gs[0], fs[0], le) + fields_enc(gs.drop_first(), fs.drop_first(), le)
    }
}

pub open spec fn field_enc(g: GValue, f: FieldSchema, le: bool) -> Seq<u8>
    decreases f,
{
    match f.rule {
        FieldRule::Normal => v_enc(g, f.ty, le),
        FieldRule::Unsaved(_) => Seq::empty(),
        FieldRule::Custom(c) => match c {
            CustomCodec::Str8 => match g {
                GValue::GStr(t) => str8_bytes(t),
                _ => Seq::empty(),
            },
            CustomCodec::I32Triple => match g {
                GValue::GI32(x) => bytes4(u32_of_i32(x), le) + bytes4(u32_of_i32(x), le) + bytes4(
                    u32_of_i32(x),
                    le,
                ),
                _ => Seq::empty(),
            },
        },
    }
}

/// Whether every unsaved field of the value holds its schema's default:
/// what loading guarantees, whatever the original held there.
pub open spec fn defaults_respected(g: GValue, s: Schema) -> bool
    decreases s,
{
    match s {
        Schema::SRec(r) => g matches GValue::GRec(gs) ==> fields_defaults(gs, r.fields@),
        Schema::SEnum(e) => g matches GValue::GEnum(d, gs) ==> (d < e.variants@.len()
            ==> fields_defaults(gs, e.variants@[d as int].fields@)),
        _ => true,
    }
}

pub open spec fn fields_defaults(gs: Seq<GValue>, fs: Seq<FieldSchema>) -> bool
    decreases fs,
{
    if fs.len() == 0 || gs.len() == 0 {
        true
    } else {
        field_defaults(gs[0], fs[0]) && fields_defaults(gs.drop_first(), fs.drop_first())
    }
}

pub open spec fn field_defaults(g: GValue, f: FieldSchema) -> bool
    decreases f,
{
    match f.rule {
        FieldRule::Normal => defaults_respected(g, f.ty),
        FieldRule::Unsaved(d) => g == vmodel(*d),
        FieldRule::Custom(_) => true,
    }
}

/// A discriminant at or past the variant count at the head of the unread
/// bytes: the input on which loading a tagged union must fail.
pub open spec fn unknown_discriminant(s: Schema, b: Seq<u8>, le: bool) -> bool {
    match s {
        Schema::SEnum(e) => {
            let n = e.variants@.len();
            if e.varint {
                exists|k: int|
                    0 <= k <= b.len() && crate::varint::varint_fits(b.take(k), 32)
                        && crate::varint::varint_value(b.take(k)) >= n
            } else if n < 256 {
                b.len() >= 1 && b[0] as nat >= n
            } else if n < 65536 {
                exists|d: u16| b.len() >= 2 && b.take(2) == bytes2(d, le) && d as nat >= n
            } else {
                exists|d: u32| b.len() >= 4 && b.take(4) == bytes4(d, le) && d as nat >= n
            }
        },
        _ => false,
    }
}


/// A numeric size for schemas, the recursion measure the walking functions
/// share.
pub open spec fn schema_size(s: Schema) -> nat
    decreases s,
{
    match s {
        Schema::SBool => 1,
        Schema::SU32 => 1,
        Schema::SI32 => 1,
        Schema::SStr => 1,
        Schema::SRec(r) => 1 + fields_size(r.fields@),
        Schema::SEnum(e) => 1 + variants_size(e.variants@),
    }
}

pub open spec fn variants_size(vs: Seq<RecordSchema>) -> nat
    decreases vs,
{
    if vs.len() == 0 {
        0
    } else {
        1 + fields_size(vs[0].fields@) + variants_size(vs.drop_first())
    }
}

pub open spec fn fields_size(fs: Seq<FieldSchema>) -> nat
    decreases fs,
{
    if fs.len() == 0 {
        0
    } else {
        1 + schema_size(fs[0].ty) + fields_size(fs.drop_first())
    }
}

/// Every variant's field list is smaller than the whole variant list.
pub proof fn lemma_variant_size(vs: Seq<RecordSchema>, i: int)
    requires
        0 <= i < vs.len(),
    ensures
        fields_size(vs[i].fields@) < 1 + variants_size(vs),
    decreases vs,
{
    if i > 0 {
        lemma_variant_size(vs.drop_first(), i - 1);
        assert(vs.drop_first()[i - 1] == vs[i]);
    }
}

/// Every field's type is smaller than the whole field list.
pub proof fn lemma_field_size(fs: Seq<FieldSchema>, i: int)
    requires
        0 <= i < fs.len(),
    ensures
        schema_size(fs[i].ty) < fields_size(fs),
    decreases fs,
{
    if i > 0 {
        lemma_field_size(fs.drop_first(), i - 1);
        assert(fs.drop_first()[i - 1] == fs[i]);
    }
}


/// The discriminant width, in bytes, a variant count selects.
pub open spec fn disc_width(count: nat) -> int {
    if count < 256 {
        1
    } else if count < 65536 {
        2
    } else {
        4
    }
}

/// What the redundant triple reads back: the value at least two of the
/// three copies agree on, if any.
pub open spec fn triple_value(a: i32, b: i32, c: i32) -> Option<i32> {
    if a == b {
        Some(a)
    } else if b == c {
        Some(b)
    } else if a == c {
        Some(c)
    } else {
        None
    }
}

/// The twelve bytes of one spelling of the redundant triple.
pub open spec fn triple_spelling(a: i32, b: i32, c: i32, le: bool) -> Seq<u8> {
    bytes4(u32_of_i32(a), le) + bytes4(u32_of_i32(b), le) + bytes4(u32_of_i32(c), le)
}

/// The byte chunks a load reads back as a given value under a schema: the
/// mirror of `v_enc` over everything the decoder accepts — any non-zero
/// byte is a true boolean, an unsaved field takes no bytes and yields its
/// default, and a corrupted triple copy is outvoted by the other two.
pub open spec fn v_accepts(g: GValue, s: Schema, le: bool, b: Seq<u8>) -> bool
    decreases s,
{
    match s {
        Schema::SBool => g matches GValue::GBool(x) && b.len() == 1 && x == (b[0] != 0),
        Schema::SU32 => g matches GValue::GU32(x) && b == bytes4(x, le),
        Schema::SI32 => g matches GValue::GI32(x) && b == bytes4(u32_of_i32(x), le),
        Schema::SStr => g matches GValue::GStr(t) && encode_utf8(t).len() < 0x100000000 && b
            == bytes4(encode_utf8(t).len() as u32, le) + encode_utf8(t),
        Schema::SRec(r) => g matches GValue::GRec(gs) && fields_accept(gs, r.fields@, le, b),
        Schema::SEnum(e) => {
            let count = e.variants@.len();
            if e.varint {
                g matches GValue::GEnum(d, gs) && d < count && (exists|k: int|
                    0 <= k <= b.len() && crate::varint::varint_fits(b.take(k), 32)
                        && crate::varint::varint_value(b.take(k)) == d && fields_accept(
                        gs,
                        e.variants@[d as int].fields@,
                        le,
                        b.skip(k),
                    ))
            } else {
                let w = disc_width(count);
                g matches GValue::GEnum(d, gs) && d < count && b.len() >= w && b.take(w)
                    == disc_bytes(d, count, le) && fields_accept(
                    gs,
                    e.variants@[d as int].fields@,
                    le,
                    b.skip(w),
                )
            }
        },
    }
}

pub open spec fn fields_accept(gs: Seq<GValue>, fs: Seq<FieldSchema>, le: bool, b: Seq<u8>) -> bool
    decreases fs,
{
    if fs.len() == 0 {
        gs.len() == 0 && b.len() == 0
    } else {
        gs.len() == fs.len() && exists|k: int|
            0 <= k <= b.len() && field_accepts(gs[0], fs[0], le, b.take(k)) && fields_accept(
                gs.drop_first(),
                fs.drop_first(),
                le,
                b.skip(k),
            )
    }
}

pub open spec fn field_accepts(g: GValue, f: FieldSchema, le: bool, b: Seq<u8>) -> bool
    decreases f,
{
    match f.rule {
        FieldRule::Normal => v_accepts(g, f.ty, le, b),
        FieldRule::Unsaved(d) => g == vmodel(*d) && b.len() == 0,
        FieldRule::Custom(c) => match c {
            CustomCodec::Str8 => g matches GValue::GStr(t) && encode_utf8(t).len() <= 255 && b
                == seq![encode_utf8(t).len() as u8] + encode_utf8(t),
            CustomCodec::I32Triple => g matches GValue::GI32(x) && (exists|a: i32, b2: i32, c2: i32|
                triple_spelling(a, b2, c2, le) == b && triple_value(a, b2, c2) == Some(x)),
        },
    }
}

/// The value a save-then-load hands back: the same value, with every
/// unsaved field replaced by its schema default.
pub open spec fn reloaded(g: GValue, s: Schema) -> GValue
    decreases s,
{
    match s {
        Schema::SRec(r) => match g {
            GValue::GRec(gs) => GValue::GRec(fields_reloaded(gs, r.fields@)),
            _ => g,
        },
        Schema::SEnum(e) => match g {
            GValue::GEnum(d, gs) => if d < e.variants@.len() {
                GValue::GEnum(d, fields_reloaded(gs, e.variants@[d as int].fields@))
            } else {
                g
            },
            _ => g,
        },
        _ => g,
    }
}

pub open spec fn fields_reloaded(gs: Seq<GValue>, fs: Seq<FieldSchema>) -> Seq<GValue>
    decreases fs,
{
    if fs.len() == 0 || gs.len() == 0 {
        gs
    } else {
        seq![field_reloaded(gs[0], fs[0])] + fields_reloaded(gs.drop_first(), fs.drop_first())
    }
}

pub open spec fn field_reloaded(g: GValue, f: FieldSchema) -> GValue
    decreases f,
{
    match f.rule {
        FieldRule::Normal => reloaded(g, f.ty),
        FieldRule::Unsaved(d) => vmodel(*d),
        FieldRule::Custom(_) => g,
    }
}

/// A reloaded record keeps every normal and custom field where it was and
/// holds the schema default in every unsaved one: the field-partitioning
/// rule, field by field.
pub proof fn lemma_fields_reloaded_at(gs: Seq<GValue>, fs: Seq<FieldSchema>, i: int)
    requires
        gs.len() == fs.len(),
        0 <= i < fs.len(),
    ensures
        fields_reloaded(gs, fs).len() == gs.len(),
        fields_reloaded(gs, fs)[i] == field_reloaded(gs[i], fs[i]),
    decreases fs,
{
    lemma_fields_reloaded_len(gs, fs);
    if i > 0 {
        lemma_fields_reloaded_at(gs.drop_first(), fs.drop_first(), i - 1);
        assert(gs.drop_first()[i - 1] == gs[i]);
        assert(fs.drop_first()[i - 1] == fs[i]);
    }
}

pub proof fn lemma_fields_reloaded_len(gs: Seq<GValue>, fs: Seq<FieldSchema>)
    requires
        gs.len() == fs.len(),
    ensures
        fields_reloaded(gs, fs).len() == gs.len(),
    decreases fs,
{
    if fs.len() > 0 {
        lemma_fields_reloaded_len(gs.drop_first(), fs.drop_first());
    }
}

/// No custom one-byte string field is long enough to be cut: the
/// hypothesis under which a structural save round-trips instead of
/// truncating.
pub open spec fn str8_short(g: GValue, s: Schema) -> bool
    decreases s,
{
    match s {
        Schema::SRec(r) => g matches GValue::GRec(gs) ==> fields_short(gs, r.fields@),
        Schema::SEnum(e) => g matches GValue::GEnum(d, gs) ==> (d < e.variants@.len()
            ==> fields_short(gs, e.variants@[d as int].fields@)),
        _ => true,
    }
}

pub open spec fn fields_short(gs: Seq<GValue>, fs: Seq<FieldSchema>) -> bool
    decreases fs,
{
    if fs.len() == 0 || gs.len() == 0 {
        true
    } else {
        field_short(gs[0], fs[0]) && fields_short(gs.drop_first(), fs.drop_first())
    }
}

pub open spec fn field_short(g: GValue, f: FieldSchema) -> bool
    decreases f,
{
    match f.rule {
        FieldRule::Normal => str8_short(g, f.ty),
        FieldRule::Unsaved(_) => true,
        FieldRule::Custom(c) => match c {
            CustomCodec::Str8 => g matches GValue::GStr(t) ==> encode_utf8(t).len() <= 255,
            CustomCodec::I32Triple => true,
        },
    }
}

/// Checks a schema before anything is written with it: the build-time
/// refusal of the shapes the structural rules rule out.
#[verifier::loop_isolation(false)]
pub fn check_schema(s: &Schema) -> (r: bool)
    ensures
        r == schema_ok(*s),
    decreases schema_size(*s),
{
    match s {
        Schema::SBool => true,
        Schema::SU32 => true,
        Schema::SI32 => true,
        Schema::SStr => true,
        Schema::SRec(r) => check_fields(&r.fields, r.named),
        Schema::SEnum(e) => {
            if (e.variants.len() as u64) >= 0x100000000u64 {
                return false;
            }
            let mut i: usize = 0;
            let n = e.variants.len();
            let mut ok = true;
            while i < n
                invariant
                    i <= n,
                    n == e.variants@.len(),
                    ok == variants_ok(e.variants@.take(i as int)),
                decreases n - i,
            {
                proof {
                    lemma_variants_ok_snoc(e.variants@.take(i as int), e.variants@[i as int]);
                    assert(e.variants@.take(i + 1) =~= e.variants@.take(i as int).push(
                        e.variants@[i as int],
                    ));
                }
                let v = &e.variants[i];
                let vf = &v.fields;
                let vn = v.named;
                proof {
                    lemma_variant_size(e.variants@, i as int);
                    assert(*v == e.variants@[i as int]);
                    assert(fields_size(vf@) < schema_size(*s));
                }
                let this_ok = check_fields(vf, vn);
                ok = ok && this_ok;
                i = i + 1;
            }
            proof {
                assert(e.variants@.take(n as int) =~= e.variants@);
            }
            ok
        },
    }
}

#[verifier::loop_isolation(false)]
fn check_fields(fields: &Vec<FieldSchema>, named: bool) -> (r: bool)
    ensures
        r == fields_ok(fields@, named),
    decreases fields_size(fields@),
{
    let n = fields.len();
    let mut i: usize = 0;
    let mut ok = true;
    while i < n
        invariant
            i <= n,
            n == fields@.len(),
            ok == fields_ok(fields@.take(i as int), named),
        decreases n - i,
    {
        proof {
            lemma_fields_ok_snoc(fields@.take(i as int), fields@[i as int], named);
            assert(fields@.take(i + 1) =~= fields@.take(i as int).push(fields@[i as int]));
        }
        let f = &fields[i];
        proof {
            lemma_field_size(fields@, i as int);
        }
        let this_ok = match &f.rule {
            FieldRule::Normal => check_schema(&f.ty),
            FieldRule::Unsaved(d) => named && conforms_to(d, &f.ty),
            FieldRule::Custom(c) => match c {
                CustomCodec::Str8 => matches!(&f.ty, Schema::SStr),
                CustomCodec::I32Triple => matches!(&f.ty, Schema::SI32),
            },
        };
        ok = ok && this_ok;
        i = i + 1;
    }
    proof {
        assert(fields@.take(n as int) =~= fields@);
    }
    ok
}

/// Checks a value against a schema.
#[verifier::loop_isolation(false)]
pub fn conforms_to(v: &Value, s: &Schema) -> (r: bool)
    ensures
        r == conforms(vmodel(*v), *s),
    decreases schema_size(*s),
{
    match (v, s) {
        (Value::VBool(_), Schema::SBool) => true,
        (Value::VU32(_), Schema::SU32) => true,
        (Value::VI32(_), Schema::SI32) => true,
        (Value::VStr(_), Schema::SStr) => true,
        (Value::VRec(vals), Schema::SRec(r)) => {
            proof {
                assert(fields_size(r.fields@) < schema_size(*s));
            }
            fields_conform_to(vals, &r.fields)
        },
        (Value::VEnum(d, vals), Schema::SEnum(e)) => {
            if (*d as usize) < e.variants.len() {
                let vr = &e.variants[*d as usize];
                let vf = &vr.fields;
                proof {
                    lemma_variant_size(e.variants@, *d as int);
                    assert(*vr == e.variants@[*d as int]);
                    assert(fields_size(vf@) < schema_size(*s));
                }
                fields_conform_to(vals, vf)
            } else {
                false
            }
        },
        _ => {
            proof {
                assert(!conforms(vmodel(*v), *s));
            }
            false
        },
    }
}

#[verifier::loop_isolation(false)]
fn fields_conform_to(vals: &Vec<Value>, fields: &Vec<FieldSchema>) -> (r: bool)
    ensures
        r == fields_conform(vmodels(vals@), fields@),
    decreases fields_size(fields@),
{
    if vals.len() != fields.len() {
        proof {
            lemma_vmodels_len(vals@);
            lemma_fields_conform_len(vmodels(vals@), fields@);
        }
        return false;
    }
    let n = fields.len();
    let mut i: usize = 0;
    let mut ok = true;
    while i < n
        invariant
            i <= n,
            n == fields@.len() == vals@.len(),
            ok == fields_conform(vmodels(vals@).take(i as int), fields@.take(i as int)),
        decreases n - i,
    {
        proof {
            lemma_vmodels_len(vals@);
            lemma_vmodels_index(vals@, i as int);
            lemma_fields_conform_snoc(
                vmodels(vals@).take(i as int),
                fields@.take(i as int),
                vmodel(vals@[i as int]),
                fields@[i as int],
            );
            assert(vmodels(vals@).take(i + 1) =~= vmodels(vals@).take(i as int).push(
                vmodel(vals@[i as int]),
            ));
            assert(fields@.take(i + 1) =~= fields@.take(i as int).push(fields@[i as int]));
        }
        let f = &fields[i];
        proof {
            lemma_field_size(fields@, i as int);
        }
        let this_ok = match &f.rule {
            FieldRule::Custom(c) => match c {
                CustomCodec::Str8 => matches!(&vals[i], Value::VStr(_)),
                CustomCodec::I32Triple => matches!(&vals[i], Value::VI32(_)),
            },
            _ => conforms_to(&vals[i], &f.ty),
        };
        ok = ok && this_ok;
        i = i + 1;
    }
    proof {
        lemma_vmodels_len(vals@);
        assert(vmodels(vals@).take(n as int) =~= vmodels(vals@));
        assert(fields@.take(n as int) =~= fields@);
    }
    ok
}

/// The model list is as long as the value list, model by model.
pub proof fn lemma_vmodels_len(vs: Seq<Value>)
    ensures
        vmodels(vs).len() == vs.len(),
    decreases vs,
{
    if vs.len() > 0 {
        lemma_vmodels_len(vs.drop_first());
    }
}

pub proof fn lemma_vmodels_index(vs: Seq<Value>, i: int)
    requires
        0 <= i < vs.len(),
    ensures
        vmodels(vs).len() == vs.len(),
        vmodels(vs)[i] == vmodel(vs[i]),
    decreases vs,
{
    lemma_vmodels_len(vs);
    if i > 0 {
        lemma_vmodels_index(vs.drop_first(), i - 1);
        assert(vs.drop_first()[i - 1] == vs[i]);
        assert(vmodels(vs)[i] == vmodels(vs.drop_first())[i - 1]);
    }
}

proof fn lemma_variants_ok_snoc(vs: Seq<RecordSchema>, v: RecordSchema)
    ensures
        variants_ok(vs.push(v)) == (variants_ok(vs) && fields_ok(v.fields@, v.named)),
    decreases vs,
{
    assert(vs.push(v).len() == vs.len() + 1);
    if vs.len() == 0 {
        assert(vs.push(v)[0] == v);
        assert(vs.push(v).drop_first() =~= Seq::<RecordSchema>::empty());
        assert(variants_ok(Seq::<RecordSchema>::empty()));
        assert(variants_ok(vs.push(v)) == (fields_ok(v.fields@, v.named) && variants_ok(
            vs.push(v).drop_first(),
        )));
    } else {
        assert(vs.push(v)[0] == vs[0]);
        assert(vs.push(v).drop_first() =~= vs.drop_first().push(v));
        lemma_variants_ok_snoc(vs.drop_first(), v);
        assert(variants_ok(vs.push(v)) == (fields_ok(vs[0].fields@, vs[0].named) && variants_ok(
            vs.push(v).drop_first(),
        )));
        assert(variants_ok(vs) == (fields_ok(vs[0].fields@, vs[0].named) && variants_ok(
            vs.drop_first(),
        )));
    }
}

proof fn lemma_fields_ok_snoc(fs: Seq<FieldSchema>, f: FieldSchema, named: bool)
    ensures
        fields_ok(fs.push(f), named) == (fields_ok(fs, named) && field_ok(f, named)),
    decreases fs,
{
    assert(fs.push(f).len() == fs.len() + 1);
    if fs.len() == 0 {
        assert(fs.push(f)[0] == f);
        assert(fs.push(f).drop_first() =~= Seq::<FieldSchema>::empty());
        assert(fields_ok(Seq::<FieldSchema>::empty(), named));
        assert(fields_ok(fs.push(f), named) == (field_ok(f, named) && fields_ok(
            fs.push(f).drop_first(),
            named,
        )));
    } else {
        assert(fs.push(f)[0] == fs[0]);
        assert(fs.push(f).drop_first() =~= fs.drop_first().push(f));
        lemma_fields_ok_snoc(fs.drop_first(), f, named);
        assert(fields_ok(fs.push(f), named) == (field_ok(fs[0], named) && fields_ok(
            fs.push(f).drop_first(),
            named,
        )));
        assert(fields_ok(fs, named) == (field_ok(fs[0], named) && fields_ok(
            fs.drop_first(),
            named,
        )));
    }
}

proof fn lemma_fields_conform_snoc(gs: Seq<GValue>, fs: Seq<FieldSchema>, g: GValue, f: FieldSchema)
    requires
        gs.len() == fs.len(),
    ensures
        fields_conform(gs.push(g), fs.push(f)) == (fields_conform(gs, fs) && field_conforms(g, f)),
    decreases fs,
{
    assert(fs.push(f).len() == fs.len() + 1);
    assert(gs.push(g).len() == gs.len() + 1);
    if fs.len() == 0 {
        assert(gs.push(g)[0] == g);
        assert(fs.push(f)[0] == f);
        assert(gs.push(g).drop_first() =~= Seq::<GValue>::empty());
        assert(fs.push(f).drop_first() =~= Seq::<FieldSchema>::empty());
        assert(fields_conform(Seq::<GValue>::empty(), Seq::<FieldSchema>::empty()));
        assert(fields_conform(gs.push(g), fs.push(f)) == (field_conforms(g, f) && fields_conform(
            gs.push(g).drop_first(),
            fs.push(f).drop_first(),
        )));
    } else {
        assert(gs.push(g)[0] == gs[0]);
        assert(fs.push(f)[0] == fs[0]);
        assert(gs.push(g).drop_first() =~= gs.drop_first().push(g));
        assert(fs.push(f).drop_first() =~= fs.drop_first().push(f));
        lemma_fields_conform_snoc(gs.drop_first(), fs.drop_first(), g, f);
        assert(fields_conform(gs.push(g), fs.push(f)) == (field_conforms(gs[0], fs[0])
            && fields_conform(gs.push(g).drop_first(), fs.push(f).drop_first())));
        assert(fields_conform(gs, fs) == (field_conforms(gs[0], fs[0]) && fields_conform(
            gs.drop_first(),
            fs.drop_first(),
        )));
    }
}

proof fn lemma_fields_conform_len(gs: Seq<GValue>, fs: Seq<FieldSchema>)
    ensures
        fields_conform(gs, fs) ==> gs.len() == fs.len(),
    decreases fs,
{
    if fs.len() > 0 && gs.len() == fs.len() {
        lemma_fields_conform_len(gs.drop_first(), fs.drop_first());
    }
}

/// What a prefix predicate over paired field lists says at one index.
proof fn lemma_fields_at(gs: Seq<GValue>, fs: Seq<FieldSchema>, named: bool, i: int)
    requires
        0 <= i < fs.len(),
        gs.len() == fs.len(),
    ensures
        fields_conform(gs, fs) ==> field_conforms(gs[i], fs[i]),
        fields_writable(gs, fs) ==> field_writable(gs[i], fs[i]),
        fields_ok(fs, named) ==> field_ok(fs[i], named),
    decreases fs,
{
    if i > 0 {
        lemma_fields_at(gs.drop_first(), fs.drop_first(), named, i - 1);
        assert(gs.drop_first()[i - 1] == gs[i]);
        assert(fs.drop_first()[i - 1] == fs[i]);
    }
}

proof fn lemma_fields_enc_snoc(gs: Seq<GValue>, fs: Seq<FieldSchema>, g: GValue, f: FieldSchema, le: bool)
    requires
        gs.len() == fs.len(),
    ensures
        fields_enc(gs.push(g), fs.push(f), le) == fields_enc(gs, fs, le) + field_enc(g, f, le),
    decreases fs,
{
    assert(fs.push(f).len() == fs.len() + 1);
    assert(gs.push(g).len() == gs.len() + 1);
    if fs.len() == 0 {
        assert(gs.push(g)[0] == g);
        assert(fs.push(f)[0] == f);
        assert(gs.push(g).drop_first() =~= Seq::<GValue>::empty());
        assert(fs.push(f).drop_first() =~= Seq::<FieldSchema>::empty());
        assert(fields_enc(gs.push(g), fs.push(f), le) == field_enc(g, f, le) + fields_enc(
            gs.push(g).drop_first(),
            fs.push(f).drop_first(),
            le,
        ));
        assert(field_enc(g, f, le) + Seq::<u8>::empty() =~= Seq::<u8>::empty() + field_enc(
            g,
            f,
            le,
        ));
    } else {
        assert(gs.push(g)[0] == gs[0]);
        assert(fs.push(f)[0] == fs[0]);
        assert(gs.push(g).drop_first() =~= gs.drop_first().push(g));
        assert(fs.push(f).drop_first() =~= fs.drop_first().push(f));
        lemma_fields_enc_snoc(gs.drop_first(), fs.drop_first(), g, f, le);
        assert(field_enc(gs[0], fs[0], le) + (fields_enc(gs.drop_first(), fs.drop_first(), le)
            + field_enc(g, f, le)) =~= (field_enc(gs[0], fs[0], le) + fields_enc(
            gs.drop_first(),
            fs.drop_first(),
            le,
        )) + field_enc(g, f, le));
    }
}

proof fn lemma_fields_conform_defaults_snoc(
    gs: Seq<GValue>,
    fs: Seq<FieldSchema>,
    g: GValue,
    f: FieldSchema,
)
    requires
        gs.len() == fs.len(),
    ensures
        fields_defaults(gs.push(g), fs.push(f)) == (fields_defaults(gs, fs) && field_defaults(
            g,
            f,
        )),
    decreases fs,
{
    assert(fs.push(f).len() == fs.len() + 1);
    assert(gs.push(g).len() == gs.len() + 1);
    if fs.len() == 0 {
        assert(gs.push(g)[0] == g);
        assert(fs.push(f)[0] == f);
        assert(gs.push(g).drop_first() =~= Seq::<GValue>::empty());
        assert(fs.push(f).drop_first() =~= Seq::<FieldSchema>::empty());
        assert(fields_defaults(gs.push(g), fs.push(f)) == (field_defaults(g, f)
            && fields_defaults(gs.push(g).drop_first(), fs.push(f).drop_first())));
    } else {
        assert(gs.push(g)[0] == gs[0]);
        assert(fs.push(f)[0] == fs[0]);
        assert(gs.push(g).drop_first() =~= gs.drop_first().push(g));
        assert(fs.push(f).drop_first() =~= fs.drop_first().push(f));
        lemma_fields_conform_defaults_snoc(gs.drop_first(), fs.drop_first(), g, f);
    }
}

proof fn lemma_vmodels_snoc(vs: Seq<Value>, x: Value)
    ensures
        vmodels(vs.push(x)) == vmodels(vs).push(vmodel(x)),
{
    lemma_vmodels_len(vs.push(x));
    lemma_vmodels_len(vs);
    assert forall|j: int| 0 <= j < vs.len() + 1 implies vmodels(vs.push(x))[j] == vmodels(
        vs,
    ).push(vmodel(x))[j] by {
        lemma_vmodels_index(vs.push(x), j);
        if j < vs.len() {
            lemma_vmodels_index(vs, j);
            assert(vs.push(x)[j] == vs[j]);
        } else {
            assert(vs.push(x)[j] == x);
        }
    }
    assert(vmodels(vs.push(x)) =~= vmodels(vs).push(vmodel(x)));
}

/// A numeric size for values, the measure cloning recurses on.
pub open spec fn value_size(v: Value) -> nat
    decreases v,
{
    match v {
        Value::VRec(fs) => 1 + values_size(fs@),
        Value::VEnum(_, fs) => 1 + values_size(fs@),
        _ => 1,
    }
}

pub open spec fn values_size(vs: Seq<Value>) -> nat
    decreases vs,
{
    if vs.len() == 0 {
        0
    } else {
        value_size(vs[0]) + values_size(vs.drop_first())
    }
}

proof fn lemma_value_size_at(vs: Seq<Value>, i: int)
    requires
        0 <= i < vs.len(),
    ensures
        value_size(vs[i]) <= values_size(vs),
    decreases vs,
{
    if i > 0 {
        lemma_value_size_at(vs.drop_first(), i - 1);
        assert(vs.drop_first()[i - 1] == vs[i]);
    }
}


/// Appending one field with an accepted chunk keeps the whole accepted.
proof fn lemma_fields_accept_snoc(
    gs: Seq<GValue>,
    fs: Seq<FieldSchema>,
    g: GValue,
    f: FieldSchema,
    le: bool,
    b: Seq<u8>,
    c: Seq<u8>,
)
    requires
        gs.len() == fs.len(),
        fields_accept(gs, fs, le, b),
        field_accepts(g, f, le, c),
    ensures
        fields_accept(gs.push(g), fs.push(f), le, b + c),
    decreases fs,
{
    assert(fs.push(f).len() == fs.len() + 1);
    assert(gs.push(g).len() == gs.len() + 1);
    if fs.len() == 0 {
        assert(b + c =~= c);
        assert(gs.push(g)[0] == g);
        assert(fs.push(f)[0] == f);
        assert(gs.push(g).drop_first() =~= Seq::<GValue>::empty());
        assert(fs.push(f).drop_first() =~= Seq::<FieldSchema>::empty());
        let k = c.len() as int;
        assert((b + c).take(k) =~= c);
        assert((b + c).skip(k) =~= Seq::<u8>::empty());
        assert(0 <= k <= (b + c).len() && field_accepts(gs.push(g)[0], fs.push(f)[0], le, (b
            + c).take(k)) && fields_accept(
            gs.push(g).drop_first(),
            fs.push(f).drop_first(),
            le,
            (b + c).skip(k),
        ));
        assert(fields_accept(gs.push(g), fs.push(f), le, b + c));
    } else {
        let k = choose|k: int|
            0 <= k <= b.len() && field_accepts(gs[0], fs[0], le, b.take(k)) && fields_accept(
                gs.drop_first(),
                fs.drop_first(),
                le,
                b.skip(k),
            );
        lemma_fields_accept_snoc(gs.drop_first(), fs.drop_first(), g, f, le, b.skip(k), c);
        assert(gs.push(g).drop_first() =~= gs.drop_first().push(g));
        assert(fs.push(f).drop_first() =~= fs.drop_first().push(f));
        assert(gs.push(g)[0] == gs[0]);
        assert(fs.push(f)[0] == fs[0]);
        assert((b + c).take(k) =~= b.take(k));
        assert((b + c).skip(k) =~= b.skip(k) + c);
        assert(0 <= k <= (b + c).len() && field_accepts(gs.push(g)[0], fs.push(f)[0], le, (b
            + c).take(k)) && fields_accept(
            gs.push(g).drop_first(),
            fs.push(f).drop_first(),
            le,
            (b + c).skip(k),
        ));
        assert(fields_accept(gs.push(g), fs.push(f), le, b + c));
    }
}

/// An accepted field stream splits at any field boundary.
proof fn lemma_fields_accept_chop(
    gs: Seq<GValue>,
    fs: Seq<FieldSchema>,
    le: bool,
    b: Seq<u8>,
    i: int,
)
    requires
        fields_accept(gs, fs, le, b),
        0 <= i <= fs.len(),
    ensures
        gs.len() == fs.len(),
        exists|k: int|
            0 <= k <= b.len() && fields_accept(gs.take(i), fs.take(i), le, b.take(k))
                && fields_accept(gs.skip(i), fs.skip(i), le, b.skip(k)),
    decreases i,
{
    lemma_fields_accept_len(gs, fs, le, b);
    if i == 0 {
        assert(gs.take(0) =~= Seq::<GValue>::empty());
        assert(fs.take(0) =~= Seq::<FieldSchema>::empty());
        assert(gs.skip(0) =~= gs);
        assert(fs.skip(0) =~= fs);
        assert(b.take(0) =~= Seq::<u8>::empty());
        assert(b.skip(0) =~= b);
        assert(0 <= 0 <= b.len() && fields_accept(gs.take(0), fs.take(0), le, b.take(0))
            && fields_accept(gs.skip(0), fs.skip(0), le, b.skip(0)));
    } else {
        let k0 = choose|k: int|
            0 <= k <= b.len() && field_accepts(gs[0], fs[0], le, b.take(k)) && fields_accept(
                gs.drop_first(),
                fs.drop_first(),
                le,
                b.skip(k),
            );
        lemma_fields_accept_chop(gs.drop_first(), fs.drop_first(), le, b.skip(k0), i - 1);
        let k = choose|k: int|
            0 <= k <= b.skip(k0).len() && fields_accept(
                gs.drop_first().take(i - 1),
                fs.drop_first().take(i - 1),
                le,
                b.skip(k0).take(k),
            ) && fields_accept(
                gs.drop_first().skip(i - 1),
                fs.drop_first().skip(i - 1),
                le,
                b.skip(k0).skip(k),
            );
        assert(gs.take(i)[0] == gs[0]);
        assert(fs.take(i)[0] == fs[0]);
        assert(gs.take(i).drop_first() =~= gs.drop_first().take(i - 1));
        assert(fs.take(i).drop_first() =~= fs.drop_first().take(i - 1));
        assert(gs.skip(i) =~= gs.drop_first().skip(i - 1));
        assert(fs.skip(i) =~= fs.drop_first().skip(i - 1));
        assert(b.take(k0 + k).take(k0) =~= b.take(k0));
        assert(b.take(k0 + k).skip(k0) =~= b.skip(k0).take(k));
        assert(b.skip(k0 + k) =~= b.skip(k0).skip(k));
        assert(fields_accept(gs.take(i), fs.take(i), le, b.take(k0 + k))) by {
            assert(0 <= k0 <= b.take(k0 + k).len() && field_accepts(
                gs.take(i)[0],
                fs.take(i)[0],
                le,
                b.take(k0 + k).take(k0),
            ) && fields_accept(
                gs.take(i).drop_first(),
                fs.take(i).drop_first(),
                le,
                b.take(k0 + k).skip(k0),
            ));
        }
        assert(0 <= k0 + k <= b.len() && fields_accept(gs.take(i), fs.take(i), le, b.take(k0 + k))
            && fields_accept(gs.skip(i), fs.skip(i), le, b.skip(k0 + k)));
    }
}

proof fn lemma_fields_accept_len(gs: Seq<GValue>, fs: Seq<FieldSchema>, le: bool, b: Seq<u8>)
    requires
        fields_accept(gs, fs, le, b),
    ensures
        gs.len() == fs.len(),
    decreases fs,
{
}

/// Two accepted one-byte-prefixed string chunks opening the same stream
/// are the same bytes for the same string.
proof fn lemma_str8_chunk_unambiguous(
    s1: Seq<char>,
    s2: Seq<char>,
    b1: Seq<u8>,
    b2: Seq<u8>,
    t1: Seq<u8>,
    t2: Seq<u8>,
)
    requires
        encode_utf8(s1).len() <= 255,
        encode_utf8(s2).len() <= 255,
        b1 == seq![encode_utf8(s1).len() as u8] + encode_utf8(s1),
        b2 == seq![encode_utf8(s2).len() as u8] + encode_utf8(s2),
        b1 + t1 == b2 + t2,
    ensures
        s1 == s2,
        b1 == b2,
{
    let u1 = encode_utf8(s1);
    let u2 = encode_utf8(s2);
    assert(b1[0] == (b1 + t1)[0]);
    assert(b2[0] == (b2 + t2)[0]);
    assert(b1[0] == u1.len() as u8);
    assert(b2[0] == u2.len() as u8);
    assert(u1.len() == u2.len());
    crate::save::lemma_fixed_prefix(b1, b2, t1, t2);
    assert(b1.skip(1) =~= u1);
    assert(b2.skip(1) =~= u2);
    assert(u1 == u2);
    vstd::utf8::encode_utf8_decode_utf8(s1);
    vstd::utf8::encode_utf8_decode_utf8(s2);
}

/// Two accepted redundant-triple chunks opening the same stream are the
/// same bytes for the same value.
#[verifier::rlimit(100)]
#[verifier::spinoff_prover]
proof fn lemma_triple_unambiguous(
    x1: i32,
    x2: i32,
    le: bool,
    b1: Seq<u8>,
    b2: Seq<u8>,
    t1: Seq<u8>,
    t2: Seq<u8>,
)
    requires
        exists|a: i32, b2x: i32, c2: i32|
            triple_spelling(a, b2x, c2, le) == b1 && triple_value(a, b2x, c2) == Some(x1),
        exists|a: i32, b2x: i32, c2: i32|
            triple_spelling(a, b2x, c2, le) == b2 && triple_value(a, b2x, c2) == Some(x2),
        b1 + t1 == b2 + t2,
    ensures
        x1 == x2,
        b1 == b2,
{
    let (a1, p1, q1) = choose|a: i32, b2x: i32, c2: i32|
        triple_spelling(a, b2x, c2, le) == b1 && triple_value(a, b2x, c2) == Some(x1);
    let (a2, p2, q2) = choose|a: i32, b2x: i32, c2: i32|
        triple_spelling(a, b2x, c2, le) == b2 && triple_value(a, b2x, c2) == Some(x2);
    assert(b1.len() == 12);
    assert(b2.len() == 12);
    crate::save::lemma_fixed_prefix(b1, b2, t1, t2);
    assert(bytes4(u32_of_i32(a1), le) =~= b1.subrange(0, 4)) by {
        assert(forall|i: int| 0 <= i < 4 ==> b1[i] == bytes4(u32_of_i32(a1), le)[i]);
    }
    assert(bytes4(u32_of_i32(a2), le) =~= b2.subrange(0, 4)) by {
        assert(forall|i: int| 0 <= i < 4 ==> b2[i] == bytes4(u32_of_i32(a2), le)[i]);
    }
    assert(bytes4(u32_of_i32(p1), le) =~= b1.subrange(4, 8)) by {
        assert(forall|i: int| 0 <= i < 4 ==> b1[i + 4] == bytes4(u32_of_i32(p1), le)[i]);
    }
    assert(bytes4(u32_of_i32(p2), le) =~= b2.subrange(4, 8)) by {
        assert(forall|i: int| 0 <= i < 4 ==> b2[i + 4] == bytes4(u32_of_i32(p2), le)[i]);
    }
    assert(bytes4(u32_of_i32(q1), le) =~= b1.subrange(8, 12)) by {
        assert(forall|i: int| 0 <= i < 4 ==> b1[i + 8] == bytes4(u32_of_i32(q1), le)[i]);
    }
    assert(bytes4(u32_of_i32(q2), le) =~= b2.subrange(8, 12)) by {
        assert(forall|i: int| 0 <= i < 4 ==> b2[i + 8] == bytes4(u32_of_i32(q2), le)[i]);
    }
    crate::wire::lemma_bytes4_injective(u32_of_i32(a1), u32_of_i32(a2), le);
    crate::wire::lemma_bytes4_injective(u32_of_i32(p1), u32_of_i32(p2), le);
    crate::wire::lemma_bytes4_injective(u32_of_i32(q1), u32_of_i32(q2), le);
    crate::wire::lemma_u32_of_i32_injective(a1, a2);
    crate::wire::lemma_u32_of_i32_injective(p1, p2);
    crate::wire::lemma_u32_of_i32_injective(q1, q2);
}

/// Two accepted chunks for one field opening the same stream carry the
/// same value in the same bytes.
proof fn lemma_field_accepts_unambiguous(
    g1: GValue,
    g2: GValue,
    f: FieldSchema,
    named: bool,
    le: bool,
    b1: Seq<u8>,
    b2: Seq<u8>,
    t1: Seq<u8>,
    t2: Seq<u8>,
)
    requires
        field_ok(f, named),
        field_accepts(g1, f, le, b1),
        field_accepts(g2, f, le, b2),
        b1 + t1 == b2 + t2,
    ensures
        g1 == g2,
        b1 == b2,
    decreases schema_size(f.ty), 1nat,
{
    match f.rule {
        FieldRule::Normal => {
            lemma_v_accepts_unambiguous(g1, g2, f.ty, le, b1, b2, t1, t2);
        },
        FieldRule::Unsaved(_) => {
            assert(b1 =~= b2);
        },
        FieldRule::Custom(c) => match c {
            CustomCodec::Str8 => {
                lemma_str8_chunk_unambiguous(g1->GStr_0, g2->GStr_0, b1, b2, t1, t2);
            },
            CustomCodec::I32Triple => {
                lemma_triple_unambiguous(g1->GI32_0, g2->GI32_0, le, b1, b2, t1, t2);
            },
        },
    }
}

/// Two accepted field streams for one field list opening the same bytes
/// carry the same values in the same bytes.
proof fn lemma_fields_accept_unambiguous(
    gs1: Seq<GValue>,
    gs2: Seq<GValue>,
    fs: Seq<FieldSchema>,
    named: bool,
    le: bool,
    b1: Seq<u8>,
    b2: Seq<u8>,
    t1: Seq<u8>,
    t2: Seq<u8>,
)
    requires
        fields_ok(fs, named),
        fields_accept(gs1, fs, le, b1),
        fields_accept(gs2, fs, le, b2),
        b1 + t1 == b2 + t2,
    ensures
        gs1 == gs2,
        b1 == b2,
    decreases fields_size(fs), 2nat,
{
    if fs.len() == 0 {
        assert(b1.len() == 0 && b2.len() == 0);
        assert(b1 =~= b2);
        assert(gs1 =~= gs2);
    } else {
        let k1 = choose|k: int|
            0 <= k <= b1.len() && field_accepts(gs1[0], fs[0], le, b1.take(k)) && fields_accept(
                gs1.drop_first(),
                fs.drop_first(),
                le,
                b1.skip(k),
            );
        let k2 = choose|k: int|
            0 <= k <= b2.len() && field_accepts(gs2[0], fs[0], le, b2.take(k)) && fields_accept(
                gs2.drop_first(),
                fs.drop_first(),
                le,
                b2.skip(k),
            );
        assert(b1.take(k1) + (b1.skip(k1) + t1) =~= b1 + t1);
        assert(b2.take(k2) + (b2.skip(k2) + t2) =~= b2 + t2);
        lemma_field_size(fs, 0);
        lemma_field_accepts_unambiguous(
            gs1[0],
            gs2[0],
            fs[0],
            named,
            le,
            b1.take(k1),
            b2.take(k2),
            b1.skip(k1) + t1,
            b2.skip(k2) + t2,
        );
        assert(k1 == k2);
        crate::save::lemma_chop(b1, b2, t1, t2, k1);
        lemma_fields_accept_unambiguous(
            gs1.drop_first(),
            gs2.drop_first(),
            fs.drop_first(),
            named,
            le,
            b1.skip(k1),
            b2.skip(k2),
            t1,
            t2,
        );
        assert(gs1 =~= gs2) by {
            assert(forall|i: int|
                1 <= i < gs1.len() ==> gs1[i] == gs1.drop_first()[i - 1] && gs2[i]
                    == gs2.drop_first()[i - 1]);
        }
        assert(b1 =~= b2) by {
            assert(forall|i: int|
                0 <= i < b1.len() ==> b1[i] == if i < k1 {
                    b1.take(k1)[i]
                } else {
                    b1.skip(k1)[i - k1]
                });
            assert(forall|i: int|
                0 <= i < b2.len() ==> b2[i] == if i < k2 {
                    b2.take(k2)[i]
                } else {
                    b2.skip(k2)[i - k2]
                });
        }
    }
}

/// Two accepted encodings under one schema opening the same stream are
/// the same bytes for the same value: what makes structural loading
/// deterministic.
#[verifier::rlimit(100)]
#[verifier::spinoff_prover]
pub proof fn lemma_v_accepts_unambiguous(
    g1: GValue,
    g2: GValue,
    s: Schema,
    le: bool,
    b1: Seq<u8>,
    b2: Seq<u8>,
    t1: Seq<u8>,
    t2: Seq<u8>,
)
    requires
        schema_ok(s),
        v_accepts(g1, s, le, b1),
        v_accepts(g2, s, le, b2),
        b1 + t1 == b2 + t2,
    ensures
        g1 == g2,
        b1 == b2,
    decreases schema_size(s), 0nat,
{
    match s {
        Schema::SBool => {
            crate::save::lemma_fixed_prefix(b1, b2, t1, t2);
            assert(b1[0] == b2[0]);
        },
        Schema::SU32 => {
            crate::save::lemma_fixed_prefix(b1, b2, t1, t2);
            crate::wire::lemma_bytes4_injective(g1->GU32_0, g2->GU32_0, le);
        },
        Schema::SI32 => {
            crate::save::lemma_fixed_prefix(b1, b2, t1, t2);
            crate::wire::lemma_bytes4_injective(
                u32_of_i32(g1->GI32_0),
                u32_of_i32(g2->GI32_0),
                le,
            );
            crate::wire::lemma_u32_of_i32_injective(g1->GI32_0, g2->GI32_0);
        },
        Schema::SStr => {
            let u1 = encode_utf8(g1->GStr_0);
            let u2 = encode_utf8(g2->GStr_0);
            crate::save::lemma_chop(b1, b2, t1, t2, 4);
            assert(b1.take(4) =~= bytes4(u1.len() as u32, le));
            assert(b2.take(4) =~= bytes4(u2.len() as u32, le));
            crate::wire::lemma_bytes4_injective(u1.len() as u32, u2.len() as u32, le);
            assert(u1.len() == u2.len());
            crate::save::lemma_fixed_prefix(b1, b2, t1, t2);
            assert(b1.skip(4) =~= u1);
            assert(b2.skip(4) =~= u2);
            assert(u1 == u2);
            vstd::utf8::encode_utf8_decode_utf8(g1->GStr_0);
            vstd::utf8::encode_utf8_decode_utf8(g2->GStr_0);
        },
        Schema::SRec(r) => {
            assert(fields_size(r.fields@) < schema_size(s));
            lemma_fields_accept_unambiguous(
                g1->GRec_0,
                g2->GRec_0,
                r.fields@,
                r.named,
                le,
                b1,
                b2,
                t1,
                t2,
            );
        },
        Schema::SEnum(e) if e.varint => {
            let count = e.variants@.len();
            let d1 = g1->GEnum_0;
            let d2 = g2->GEnum_0;
            let k1 = choose|k: int|
                0 <= k <= b1.len() && crate::varint::varint_fits(b1.take(k), 32)
                    && crate::varint::varint_value(b1.take(k)) == d1 && fields_accept(
                    g1->GEnum_1,
                    e.variants@[d1 as int].fields@,
                    le,
                    b1.skip(k),
                );
            let k2 = choose|k: int|
                0 <= k <= b2.len() && crate::varint::varint_fits(b2.take(k), 32)
                    && crate::varint::varint_value(b2.take(k)) == d2 && fields_accept(
                    g2->GEnum_1,
                    e.variants@[d2 as int].fields@,
                    le,
                    b2.skip(k),
                );
            assert(b1.take(k1) + (b1.skip(k1) + t1) =~= b1 + t1);
            assert(b2.take(k2) + (b2.skip(k2) + t2) =~= b2 + t2);
            crate::varint::lemma_varint_frame_unambiguous(
                b1.take(k1),
                b2.take(k2),
                b1.skip(k1) + t1,
                b2.skip(k2) + t2,
            );
            assert(k1 == k2);
            assert(d1 == d2);
            crate::save::lemma_chop(b1, b2, t1, t2, k1);
            let vr = e.variants@[d1 as int];
            lemma_variant_size(e.variants@, d1 as int);
            lemma_variants_index_ok(e.variants@, d1 as int);
            lemma_fields_accept_unambiguous(
                g1->GEnum_1,
                g2->GEnum_1,
                vr.fields@,
                vr.named,
                le,
                b1.skip(k1),
                b2.skip(k2),
                t1,
                t2,
            );
            assert(b1 =~= b2) by {
                assert(forall|i: int|
                    0 <= i < b1.len() ==> b1[i] == if i < k1 {
                        b1.take(k1)[i]
                    } else {
                        b1.skip(k1)[i - k1]
                    });
                assert(forall|i: int|
                    0 <= i < b2.len() ==> b2[i] == if i < k2 {
                        b2.take(k2)[i]
                    } else {
                        b2.skip(k2)[i - k2]
                    });
            }
        },
        Schema::SEnum(e) => {
            let count = e.variants@.len();
            let w = disc_width(count);
            let d1 = g1->GEnum_0;
            let d2 = g2->GEnum_0;
            crate::save::lemma_chop(b1, b2, t1, t2, w);
            assert(b1.take(w) == b2.take(w));
            if count < 256 {
                assert(disc_bytes(d1, count, le)[0] == d1 as u8);
                assert(disc_bytes(d2, count, le)[0] == d2 as u8);
                assert(d1 as u8 == d2 as u8);
                assert(d1 == d2);
            } else if count < 65536 {
                crate::wire::lemma_bytes2_injective(d1 as u16, d2 as u16, le);
                assert(d1 == d2);
            } else {
                crate::wire::lemma_bytes4_injective(d1 as u32, d2 as u32, le);
                assert(d1 == d2);
            }
            let vr = e.variants@[d1 as int];
            lemma_variant_size(e.variants@, d1 as int);
            lemma_variants_index_ok(e.variants@, d1 as int);
            lemma_fields_accept_unambiguous(
                g1->GEnum_1,
                g2->GEnum_1,
                vr.fields@,
                vr.named,
                le,
                b1.skip(w),
                b2.skip(w),
                t1,
                t2,
            );
            assert(b1 =~= b2) by {
                assert(forall|i: int|
                    0 <= i < b1.len() ==> b1[i] == if i < w {
                        b1.take(w)[i]
                    } else {
                        b1.skip(w)[i - w]
                    });
                assert(forall|i: int|
                    0 <= i < b2.len() ==> b2[i] == if i < w {
                        b2.take(w)[i]
                    } else {
                        b2.skip(w)[i - w]
                    });
            }
        },
    }
}


/// What a save writes is read back as the same value with unsaved fields
/// defaulted — as long as no one-byte-prefixed string field is long enough
/// to be truncated.
pub proof fn lemma_v_enc_accepted(g: GValue, s: Schema, le: bool)
    requires
        schema_ok(s),
        conforms(g, s),
        writable(g, s),
        str8_short(g, s),
    ensures
        v_accepts(reloaded(g, s), s, le, v_enc(g, s, le)),
        conforms(reloaded(g, s), s),
    decreases schema_size(s), 0nat,
{
    match s {
        Schema::SBool => {
        },
        Schema::SU32 => {
        },
        Schema::SI32 => {
        },
        Schema::SStr => {
        },
        Schema::SRec(r) => {
            assert(fields_size(r.fields@) < schema_size(s));
            lemma_fields_enc_accepted(g->GRec_0, r.fields@, r.named, le);
        },
        Schema::SEnum(e) => {
            let d = g->GEnum_0;
            let gs = g->GEnum_1;
            let count = e.variants@.len();
            let vr = e.variants@[d as int];
            lemma_variant_size(e.variants@, d as int);
            lemma_variants_index_ok(e.variants@, d as int);
            lemma_fields_enc_accepted(gs, vr.fields@, vr.named, le);
            let b = v_enc(g, s, le);
            if e.varint {
                vstd::arithmetic::power2::lemma2_to64();
                crate::varint::lemma_varint_enc_fits(d, 32);
                crate::varint::lemma_varint_enc_ok(d);
                let k = crate::varint::varint_enc(d).len() as int;
                assert(b.take(k) =~= crate::varint::varint_enc(d));
                assert(b.skip(k) =~= fields_enc(gs, vr.fields@, le));
                assert(0 <= k <= b.len() && crate::varint::varint_fits(b.take(k), 32)
                    && crate::varint::varint_value(b.take(k)) == d && fields_accept(
                    fields_reloaded(gs, vr.fields@),
                    vr.fields@,
                    le,
                    b.skip(k),
                ));
            } else {
                let w = disc_width(count);
                assert(disc_bytes(d, count, le).len() == w);
                assert(b.take(w) =~= disc_bytes(d, count, le));
                assert(b.skip(w) =~= fields_enc(gs, vr.fields@, le));
            }
        },
    }
}

proof fn lemma_field_enc_accepted(g: GValue, f: FieldSchema, named: bool, le: bool)
    requires
        field_ok(f, named),
        field_conforms(g, f),
        field_writable(g, f),
        field_short(g, f),
    ensures
        field_accepts(field_reloaded(g, f), f, le, field_enc(g, f, le)),
        field_conforms(field_reloaded(g, f), f),
    decreases schema_size(f.ty), 1nat,
{
    match f.rule {
        FieldRule::Normal => {
            lemma_v_enc_accepted(g, f.ty, le);
        },
        FieldRule::Unsaved(_) => {
        },
        FieldRule::Custom(c) => match c {
            CustomCodec::Str8 => {
                let t = g->GStr_0;
                let u = encode_utf8(t);
                assert(u.take(u.len() as int) =~= u);
                assert(field_enc(g, f, le) == seq![u.len() as u8] + u);
            },
            CustomCodec::I32Triple => {
                let x = g->GI32_0;
                assert(triple_spelling(x, x, x, le) == field_enc(g, f, le) && triple_value(
                    x,
                    x,
                    x,
                ) == Some(x));
            },
        },
    }
}

proof fn lemma_fields_enc_accepted(gs: Seq<GValue>, fs: Seq<FieldSchema>, named: bool, le: bool)
    requires
        fields_ok(fs, named),
        fields_conform(gs, fs),
        fields_writable(gs, fs),
        fields_short(gs, fs),
    ensures
        fields_accept(fields_reloaded(gs, fs), fs, le, fields_enc(gs, fs, le)),
        fields_conform(fields_reloaded(gs, fs), fs),
        fields_reloaded(gs, fs).len() == gs.len(),
    decreases fields_size(fs), 2nat,
{
    if fs.len() == 0 {
        assert(fields_reloaded(gs, fs) == gs);
    } else {
        lemma_field_size(fs, 0);
        lemma_field_enc_accepted(gs[0], fs[0], named, le);
        lemma_fields_enc_accepted(gs.drop_first(), fs.drop_first(), named, le);
        let rel = fields_reloaded(gs, fs);
        let b = fields_enc(gs, fs, le);
        let k = field_enc(gs[0], fs[0], le).len() as int;
        assert(rel[0] == field_reloaded(gs[0], fs[0]));
        assert(rel.drop_first() =~= fields_reloaded(gs.drop_first(), fs.drop_first()));
        assert(b.take(k) =~= field_enc(gs[0], fs[0], le));
        assert(b.skip(k) =~= fields_enc(gs.drop_first(), fs.drop_first(), le));
        assert(0 <= k <= b.len() && field_accepts(rel[0], fs[0], le, b.take(k)) && fields_accept(
            rel.drop_first(),
            fs.drop_first(),
            le,
            b.skip(k),
        ));
        assert(fields_accept(rel, fs, le, b));
        assert(fields_conform(rel, fs)) by {
            assert(field_conforms(rel[0], fs[0]));
            assert(fields_conform(rel.drop_first(), fs.drop_first()));
        }
    }
}

/// A structural copy of a dynamic value: same model, fresh storage.
#[verifier::loop_isolation(false)]
pub fn clone_value(v: &Value) -> (r: Value)
    ensures
        vmodel(r) == vmodel(*v),
    decreases value_size(*v),
{
    match v {
        Value::VBool(b) => Value::VBool(*b),
        Value::VU32(x) => Value::VU32(*x),
        Value::VI32(x) => Value::VI32(*x),
        Value::VStr(s) => Value::VStr(s.clone()),
        Value::VRec(vals) => {
            let mut out: Vec<Value> = Vec::new();
            let n = vals.len();
            let mut i: usize = 0;
            proof {
                assert(vmodels(out@) =~= Seq::<GValue>::empty());
                assert(vmodels(vals@.take(0)) =~= Seq::<GValue>::empty());
            }
            while i < n
                invariant
                    i <= n,
                    n == vals@.len(),
                    vmodels(out@) == vmodels(vals@.take(i as int)),
                decreases n - i,
            {
                proof {
                    lemma_value_size_at(vals@, i as int);
                }
                let c = clone_value(&vals[i]);
                let ghost prev = out@;
                out.push(c);
                proof {
                    lemma_vmodels_snoc(prev, c);
                    lemma_vmodels_snoc(vals@.take(i as int), vals@[i as int]);
                    assert(vals@.take(i + 1) =~= vals@.take(i as int).push(vals@[i as int]));
                    assert(out@ =~= prev.push(c));
                }
                i = i + 1;
            }
            proof {
                assert(vals@.take(n as int) =~= vals@);
            }
            Value::VRec(out)
        },
        Value::VEnum(d, vals) => {
            let mut out: Vec<Value> = Vec::new();
            let n = vals.len();
            let mut i: usize = 0;
            proof {
                assert(vmodels(out@) =~= Seq::<GValue>::empty());
                assert(vmodels(vals@.take(0)) =~= Seq::<GValue>::empty());
            }
            while i < n
                invariant
                    i <= n,
                    n == vals@.len(),
                    vmodels(out@) == vmodels(vals@.take(i as int)),
                decreases n - i,
            {
                proof {
                    lemma_value_size_at(vals@, i as int);
                }
                let c = clone_value(&vals[i]);
                let ghost prev = out@;
                out.push(c);
                proof {
                    lemma_vmodels_snoc(prev, c);
                    lemma_vmodels_snoc(vals@.take(i as int), vals@[i as int]);
                    assert(vals@.take(i + 1) =~= vals@.take(i as int).push(vals@[i as int]));
                    assert(out@ =~= prev.push(c));
                }
                i = i + 1;
            }
            proof {
                assert(vals@.take(n as int) =~= vals@);
            }
            Value::VEnum(*d, out)
        },
    }
}

/// Writes a value under a schema: fields in declaration order, unsaved
/// fields skipped, custom fields through their codec, and for a tagged
/// union the discriminant first, in the width its variant count selects.
#[verifier::loop_isolation(false)]
pub fn save_value(v: &Value, s: &Schema, saver: &mut ByteBuffer)
    requires
        schema_ok(*s),
        conforms(vmodel(*v), *s),
        writable(vmodel(*v), *s),
    ensures
        final(saver)@.data == old(saver)@.data + v_enc(vmodel(*v), *s, old(saver)@.le),
        final(saver)@.rpos == old(saver)@.rpos,
        final(saver)@.le == old(saver)@.le,
    decreases schema_size(*s),
{
    match (v, s) {
        (Value::VBool(b), Schema::SBool) => saver.push_bool(*b),
        (Value::VU32(x), Schema::SU32) => saver.push_u32(*x),
        (Value::VI32(x), Schema::SI32) => saver.push_i32(*x),
        (Value::VStr(t), Schema::SStr) => saver.push_string(t.as_str()),
        (Value::VRec(vals), Schema::SRec(r)) => {
            proof {
                assert(fields_size(r.fields@) < schema_size(*s));
            }
            save_fields(vals, &r.fields, r.named, saver);
        },
        (Value::VEnum(d, vals), Schema::SEnum(e)) => {
            let count = e.variants.len();
            let ghost countn = e.variants@.len();
            if e.varint {
                crate::varint::varint_write(saver, *d as u64);
                proof {
                    assert(saver@.data =~= old(saver)@.data + crate::varint::varint_enc(
                        *d as nat,
                    ));
                }
            } else {
                if (count as u64) < 256 {
                    saver.push_u8(*d as u8);
                } else if (count as u64) < 65536 {
                    saver.push_u16(*d as u16);
                } else {
                    saver.push_u32(*d);
                }
                proof {
                    assert(saver@.data =~= old(saver)@.data + disc_bytes(
                        *d as nat,
                        countn,
                        old(saver)@.le,
                    ));
                }
            }
            let vr = &e.variants[*d as usize];
            let vf = &vr.fields;
            proof {
                lemma_variant_size(e.variants@, *d as int);
                lemma_variants_index_ok(e.variants@, *d as int);
                assert(*vr == e.variants@[*d as int]);
                assert(fields_size(vf@) < schema_size(*s));
            }
            save_fields(vals, vf, vr.named, saver);
            proof {
                assert(saver@.data =~= old(saver)@.data + v_enc(
                    vmodel(*v),
                    *s,
                    old(saver)@.le,
                ));
            }
        },
        _ => {
            proof {
                assert(!conforms(vmodel(*v), *s));
            }
            unreached()
        },
    }
}

#[verifier::loop_isolation(false)]
fn save_fields(vals: &Vec<Value>, fields: &Vec<FieldSchema>, named: bool, saver: &mut ByteBuffer)
    requires
        fields_ok(fields@, named),
        fields_conform(vmodels(vals@), fields@),
        fields_writable(vmodels(vals@), fields@),
    ensures
        final(saver)@.data == old(saver)@.data + fields_enc(
            vmodels(vals@),
            fields@,
            old(saver)@.le,
        ),
        final(saver)@.rpos == old(saver)@.rpos,
        final(saver)@.le == old(saver)@.le,
    decreases fields_size(fields@),
{
    let n = fields.len();
    proof {
        lemma_vmodels_len(vals@);
        lemma_fields_conform_len(vmodels(vals@), fields@);
        assert(vmodels(vals@).take(0) =~= Seq::<GValue>::empty());
        assert(fields@.take(0) =~= Seq::<FieldSchema>::empty());
        assert(saver@.data =~= old(saver)@.data + fields_enc(
            vmodels(vals@).take(0),
            fields@.take(0),
            old(saver)@.le,
        ));
    }
    let mut i: usize = 0;
    while i < n
        invariant
            i <= n,
            n == fields@.len() == vals@.len(),
            vmodels(vals@).len() == vals@.len(),
            fields_ok(fields@, named),
            fields_conform(vmodels(vals@), fields@),
            fields_writable(vmodels(vals@), fields@),
            saver@.data == old(saver)@.data + fields_enc(
                vmodels(vals@).take(i as int),
                fields@.take(i as int),
                old(saver)@.le,
            ),
            saver@.rpos == old(saver)@.rpos,
            saver@.le == old(saver)@.le,
        decreases n - i,
    {
        proof {
            lemma_vmodels_index(vals@, i as int);
            lemma_fields_at(vmodels(vals@), fields@, named, i as int);
            lemma_field_size(fields@, i as int);
        }
        let f = &fields[i];
        match &f.rule {
            FieldRule::Normal => {
                save_value(&vals[i], &f.ty, saver);
            },
            FieldRule::Unsaved(_) => {
            },
            FieldRule::Custom(c) => match c {
                CustomCodec::Str8 => match &vals[i] {
                    Value::VStr(t) => string8_save(saver, t),
                    _ => {
                        proof {
                            assert(!field_conforms(vmodels(vals@)[i as int], fields@[i as int]));
                        }
                        unreached()
                    },
                },
                CustomCodec::I32Triple => match &vals[i] {
                    Value::VI32(x) => {
                        saver.push_i32(*x);
                        saver.push_i32(*x);
                        saver.push_i32(*x);
                    },
                    _ => {
                        proof {
                            assert(!field_conforms(vmodels(vals@)[i as int], fields@[i as int]));
                        }
                        unreached()
                    },
                },
            },
        }
        proof {
            lemma_fields_enc_snoc(
                vmodels(vals@).take(i as int),
                fields@.take(i as int),
                vmodels(vals@)[i as int],
                fields@[i as int],
                old(saver)@.le,
            );
            assert(vmodels(vals@).take(i + 1) =~= vmodels(vals@).take(i as int).push(
                vmodels(vals@)[i as int],
            ));
            assert(fields@.take(i + 1) =~= fields@.take(i as int).push(fields@[i as int]));
            assert(saver@.data =~= old(saver)@.data + fields_enc(
                vmodels(vals@).take(i + 1),
                fields@.take(i + 1),
                old(saver)@.le,
            ));
        }
        i = i + 1;
    }
    proof {
        assert(vmodels(vals@).take(n as int) =~= vmodels(vals@));
        assert(fields@.take(n as int) =~= fields@);
    }
}

/// With too few bytes left for three copies, no triple chunk opens the
/// stream.
#[verifier::rlimit(100)]
#[verifier::spinoff_prover]
proof fn lemma_triple_absent(
    mcur: crate::buffer::BufModel,
    f: FieldSchema,
    le: bool,
    failpos: int,
)
    requires
        f.rule matches FieldRule::Custom(c) && c is I32Triple,
        mcur.rpos <= failpos <= mcur.rpos + 8,
        failpos + 4 > mcur.data.len(),
    ensures
        !(exists|g: GValue, c: Seq<u8>| field_accepts(g, f, le, c) && mcur.starts_with(c)),
{
    assert forall|g: GValue, c: Seq<u8>|
        field_accepts(g, f, le, c) && mcur.starts_with(c) implies false by {
        let (a, b, c2) = choose|a: i32, b: i32, c2: i32|
            triple_spelling(a, b, c2, le) == c && triple_value(a, b, c2) == Some(g->GI32_0);
        assert(c.len() == 12);
    }
}

/// Three mutually distinct copies admit no accepted triple chunk: the
/// redundancy has lost its majority.
#[verifier::rlimit(100)]
#[verifier::spinoff_prover]
proof fn lemma_triple_corrupt(
    mcur: crate::buffer::BufModel,
    f: FieldSchema,
    le: bool,
    a: i32,
    b: i32,
    c2: i32,
)
    requires
        f.rule matches FieldRule::Custom(c) && c is I32Triple,
        a != b,
        b != c2,
        a != c2,
        mcur.rpos + 12 <= mcur.data.len(),
        mcur.data.subrange(mcur.rpos as int, mcur.rpos as int + 4) == bytes4(u32_of_i32(a), le),
        mcur.data.subrange(mcur.rpos as int + 4, mcur.rpos as int + 8) == bytes4(
            u32_of_i32(b),
            le,
        ),
        mcur.data.subrange(mcur.rpos as int + 8, mcur.rpos as int + 12) == bytes4(
            u32_of_i32(c2),
            le,
        ),
    ensures
        !(exists|g: GValue, c: Seq<u8>| field_accepts(g, f, le, c) && mcur.starts_with(c)),
{
    assert forall|g: GValue, c: Seq<u8>|
        field_accepts(g, f, le, c) && mcur.starts_with(c) implies false by {
        let (a1, b1, c1) = choose|a1: i32, b1: i32, c1: i32|
            triple_spelling(a1, b1, c1, le) == c && triple_value(a1, b1, c1) == Some(g->GI32_0);
        assert(c.len() == 12);
        assert(bytes4(u32_of_i32(a1), le) =~= mcur.data.subrange(
            mcur.rpos as int,
            mcur.rpos as int + 4,
        )) by {
            assert(forall|j: int|
                0 <= j < 4 ==> c[j] == bytes4(u32_of_i32(a1), le)[j] && c[j] == mcur.data[mcur.rpos
                    + j]);
        }
        assert(bytes4(u32_of_i32(b1), le) =~= mcur.data.subrange(
            mcur.rpos as int + 4,
            mcur.rpos as int + 8,
        )) by {
            assert(forall|j: int|
                0 <= j < 4 ==> c[j + 4] == bytes4(u32_of_i32(b1), le)[j] && c[j + 4]
                    == mcur.data[mcur.rpos + 4 + j]);
        }
        assert(bytes4(u32_of_i32(c1), le) =~= mcur.data.subrange(
            mcur.rpos as int + 8,
            mcur.rpos as int + 12,
        )) by {
            assert(forall|j: int|
                0 <= j < 4 ==> c[j + 8] == bytes4(u32_of_i32(c1), le)[j] && c[j + 8]
                    == mcur.data[mcur.rpos + 8 + j]);
        }
        crate::wire::lemma_bytes4_injective(u32_of_i32(a1), u32_of_i32(a), le);
        crate::wire::lemma_bytes4_injective(u32_of_i32(b1), u32_of_i32(b), le);
        crate::wire::lemma_bytes4_injective(u32_of_i32(c1), u32_of_i32(c2), le);
        crate::wire::lemma_u32_of_i32_injective(a1, a);
        crate::wire::lemma_u32_of_i32_injective(b1, b);
        crate::wire::lemma_u32_of_i32_injective(c1, c2);
    }
}

/// A well-formed prefix of a well-formed field list.
proof fn lemma_fields_ok_take(fs: Seq<FieldSchema>, named: bool, i: int)
    requires
        fields_ok(fs, named),
        0 <= i <= fs.len(),
    ensures
        fields_ok(fs.take(i), named),
    decreases i,
{
    if i == 0 {
        assert(fs.take(0) =~= Seq::<FieldSchema>::empty());
    } else {
        lemma_fields_ok_take(fs.drop_first(), named, i - 1);
        assert(fs.take(i)[0] == fs[0]);
        assert(fs.take(i).drop_first() =~= fs.drop_first().take(i - 1));
    }
}

/// When loading field `i` fails, no whole field list whose accepted chunks
/// open the original stream can exist.
#[verifier::rlimit(100)]
#[verifier::spinoff_prover]
proof fn lemma_fields_load_fails(
    m0: crate::buffer::BufModel,
    mcur: crate::buffer::BufModel,
    fs: Seq<FieldSchema>,
    named: bool,
    i: int,
    gsofar: Seq<GValue>,
)
    requires
        mcur.data == m0.data,
        mcur.le == m0.le,
        m0.rpos <= mcur.rpos <= m0.data.len(),
        0 <= i < fs.len(),
        fields_ok(fs, named),
        gsofar.len() == i,
        fields_accept(
            gsofar,
            fs.take(i),
            m0.le,
            m0.data.subrange(m0.rpos as int, mcur.rpos as int),
        ),
        !(exists|g: GValue, c: Seq<u8>|
            field_accepts(g, fs[i], m0.le, c) && mcur.starts_with(c)),
    ensures
        !(exists|gs: Seq<GValue>, b: Seq<u8>|
            fields_accept(gs, fs, m0.le, b) && m0.starts_with(b)),
{
    let consumed = m0.data.subrange(m0.rpos as int, mcur.rpos as int);
    lemma_fields_ok_take(fs, named, i);
    assert forall|gs: Seq<GValue>, b: Seq<u8>|
        fields_accept(gs, fs, m0.le, b) && m0.starts_with(b) implies false by {
        lemma_fields_accept_chop(gs, fs, m0.le, b, i);
        let k = choose|k: int|
            0 <= k <= b.len() && fields_accept(gs.take(i), fs.take(i), m0.le, b.take(k))
                && fields_accept(gs.skip(i), fs.skip(i), m0.le, b.skip(k));
        assert(b.take(k) + (b.skip(k) + m0.data.subrange(
            m0.rpos as int + b.len() as int,
            m0.data.len() as int,
        )) =~= m0.data.subrange(m0.rpos as int, m0.data.len() as int));
        assert(consumed + m0.data.subrange(mcur.rpos as int, m0.data.len() as int)
            =~= m0.data.subrange(m0.rpos as int, m0.data.len() as int));
        lemma_fields_accept_unambiguous(
            gsofar,
            gs.take(i),
            fs.take(i),
            named,
            m0.le,
            consumed,
            b.take(k),
            m0.data.subrange(mcur.rpos as int, m0.data.len() as int),
            b.skip(k) + m0.data.subrange(
                m0.rpos as int + b.len() as int,
                m0.data.len() as int,
            ),
        );
        assert(consumed.len() == k);
        assert(fs.skip(i)[0] == fs[i]);
        assert(fs.skip(i).len() > 0);
        let kk = choose|kk: int|
            0 <= kk <= b.skip(k).len() && field_accepts(
                gs.skip(i)[0],
                fs.skip(i)[0],
                m0.le,
                b.skip(k).take(kk),
            ) && fields_accept(
                gs.skip(i).drop_first(),
                fs.skip(i).drop_first(),
                m0.le,
                b.skip(k).skip(kk),
            );
        let c = b.skip(k).take(kk);
        assert(mcur.data.subrange(mcur.rpos as int, mcur.rpos as int + c.len() as int)
            =~= c) by {
            assert(forall|j: int|
                0 <= j < c.len() ==> c[j] == b[k + j] && b[k + j] == m0.data[m0.rpos + k + j]);
        }
        assert(mcur.starts_with(c));
        assert(field_accepts(gs.skip(i)[0], fs[i], m0.le, c) && mcur.starts_with(c));
    }
}

/// Reads a value under a schema: the mirror image of `save_value`, walking
/// the same fields in the same order. The consumed bytes are an accepted
/// encoding of the result — so a loaded record conforms to its schema and
/// holds the schema's default in every unsaved field — and loading fails
/// exactly when no value's accepted encoding opens the unread bytes; in
/// particular a tagged union whose stream opens with a discriminant at or
/// past the variant count is refused.
#[verifier::loop_isolation(false)]
#[verifier::rlimit(100)]
#[verifier::spinoff_prover]
pub fn load_value(s: &Schema, loader: &mut ByteBuffer) -> (r: Result<Value, String>)
    requires
        schema_ok(*s),
    ensures
        final(loader)@.data == old(loader)@.data,
        final(loader)@.le == old(loader)@.le,
        final(loader)@.rpos >= old(loader)@.rpos,
        final(loader)@.rpos <= old(loader)@.data.len(),
        r matches Ok(v) ==> conforms(vmodel(v), *s) && defaults_respected(vmodel(v), *s)
            && v_accepts(
            vmodel(v),
            *s,
            old(loader)@.le,
            old(loader)@.data.subrange(old(loader)@.rpos as int, final(loader)@.rpos as int),
        ),
        r is Err ==> !(exists|g: GValue, b: Seq<u8>|
            v_accepts(g, *s, old(loader)@.le, b) && old(loader)@.starts_with(b)),
        unknown_discriminant(*s, old(loader)@.remaining(), old(loader)@.le) ==> r is Err,
    decreases schema_size(*s),
{
    proof {
        loader.lemma_rpos_bound();
    }
    let ghost m0 = loader@;
    match s {
        Schema::SBool => match loader.pop_bool() {
            Some(b) => {
                proof {
                    let c = m0.data.subrange(m0.rpos as int, loader@.rpos as int);
                    assert(c.len() == 1);
                    assert(c[0] == m0.data[m0.rpos as int]);
                }
                Ok(Value::VBool(b))
            },
            None => {
                proof {
                    assert forall|g: GValue, b: Seq<u8>|
                        v_accepts(g, *s, m0.le, b) && m0.starts_with(b) implies false by {
                        assert(b.len() == 1);
                    }
                }
                Err("Failed to load bool from Loader!".to_string())
            },
        },
        Schema::SU32 => match loader.pop_u32() {
            Some(x) => Ok(Value::VU32(x)),
            None => {
                proof {
                    assert forall|g: GValue, b: Seq<u8>|
                        v_accepts(g, *s, m0.le, b) && m0.starts_with(b) implies false by {
                        assert(b.len() == 4);
                    }
                }
                Err("Failed to load u32 from Loader!".to_string())
            },
        },
        Schema::SI32 => match loader.pop_i32() {
            Some(x) => Ok(Value::VI32(x)),
            None => {
                proof {
                    assert forall|g: GValue, b: Seq<u8>|
                        v_accepts(g, *s, m0.le, b) && m0.starts_with(b) implies false by {
                        assert(b.len() == 4);
                    }
                }
                Err("Failed to load i32 from Loader!".to_string())
            },
        },
        Schema::SStr => match loader.pop_string() {
            Some(t) => {
                proof {
                    let c = m0.data.subrange(m0.rpos as int, loader@.rpos as int);
                    assert(c =~= bytes4(encode_utf8(t@).len() as u32, m0.le) + encode_utf8(t@));
                }
                Ok(Value::VStr(t))
            },
            None => {
                proof {
                    assert forall|g: GValue, b: Seq<u8>|
                        v_accepts(g, *s, m0.le, b) && m0.starts_with(b) implies false by {
                        let t = g->GStr_0;
                        assert(encode_utf8(t).len() < 0x100000000 && m0.starts_with(
                            bytes4(encode_utf8(t).len() as u32, m0.le) + encode_utf8(t),
                        ));
                    }
                }
                Err("Failed to load String from Loader!".to_string())
            },
        },
        Schema::SRec(r) => {
            proof {
                assert(fields_size(r.fields@) < schema_size(*s));
            }
            match load_fields(&r.fields, r.named, loader) {
                Ok(vals) => Ok(Value::VRec(vals)),
                Err(e) => {
                    proof {
                        assert forall|g: GValue, b: Seq<u8>|
                            v_accepts(g, *s, m0.le, b) && m0.starts_with(b) implies false by {
                            assert(fields_accept(g->GRec_0, r.fields@, m0.le, b)
                                && m0.starts_with(b));
                        }
                    }
                    Err(e)
                },
            }
        },
        Schema::SEnum(e) => {
            let count = e.variants.len();
            let ghost countn = e.variants@.len();
            if e.varint {
                let d: u32 = match crate::varint::varint_read(loader, 32) {
                    Ok(u) => {
                        proof {
                            vstd::arithmetic::power2::lemma2_to64();
                        }
                        u as u32
                    },
                    Err(_) => {
                        proof {
                            assert forall|g: GValue, b: Seq<u8>|
                                v_accepts(g, *s, m0.le, b) && m0.starts_with(
                                    b,
                                ) implies false by {
                                let k = choose|k: int|
                                    0 <= k <= b.len() && crate::varint::varint_fits(b.take(k), 32)
                                        && crate::varint::varint_value(b.take(k)) == g->GEnum_0
                                        && fields_accept(
                                        g->GEnum_1,
                                        e.variants@[g->GEnum_0 as int].fields@,
                                        m0.le,
                                        b.skip(k),
                                    );
                                assert(m0.data.subrange(m0.rpos as int, m0.rpos as int + k)
                                    =~= b.take(k));
                                assert(m0.starts_with(b.take(k)));
                            }
                        }
                        return Err("Failed to load enum discriminant from Loader!".to_string());
                    },
                };
                let ghost m1 = loader@;
                let ghost bd = m0.data.subrange(m0.rpos as int, m1.rpos as int);
                if (d as usize) >= count {
                    proof {
                        assert forall|g: GValue, b: Seq<u8>|
                            v_accepts(g, *s, m0.le, b) && m0.starts_with(b) implies false by {
                            let k = choose|k: int|
                                0 <= k <= b.len() && crate::varint::varint_fits(b.take(k), 32)
                                    && crate::varint::varint_value(b.take(k)) == g->GEnum_0
                                    && fields_accept(
                                    g->GEnum_1,
                                    e.variants@[g->GEnum_0 as int].fields@,
                                    m0.le,
                                    b.skip(k),
                                );
                            assert(b.take(k) + (b.skip(k) + m0.data.subrange(
                                m0.rpos as int + b.len() as int,
                                m0.data.len() as int,
                            )) =~= m0.data.subrange(m0.rpos as int, m0.data.len() as int));
                            assert(bd + m0.data.subrange(m1.rpos as int, m0.data.len() as int)
                                =~= m0.data.subrange(m0.rpos as int, m0.data.len() as int));
                            crate::varint::lemma_varint_frame_unambiguous(
                                b.take(k),
                                bd,
                                b.skip(k) + m0.data.subrange(
                                    m0.rpos as int + b.len() as int,
                                    m0.data.len() as int,
                                ),
                                m0.data.subrange(m1.rpos as int, m0.data.len() as int),
                            );
                        }
                    }
                    return Err(
                        "Failed to load enum: unknown variant discriminant!".to_string(),
                    );
                }
                proof {
                    let b = m0.remaining();
                    assert(!unknown_discriminant(*s, b, m0.le)) by {
                        assert forall|k: int|
                            !(0 <= k <= b.len() && crate::varint::varint_fits(b.take(k), 32)
                                && crate::varint::varint_value(b.take(k)) >= countn) by {
                            if 0 <= k <= b.len() && crate::varint::varint_fits(b.take(k), 32)
                                && crate::varint::varint_value(b.take(k)) >= countn {
                                assert(b.take(k) + b.skip(k) =~= b);
                                assert(bd + m0.data.subrange(
                                    m1.rpos as int,
                                    m0.data.len() as int,
                                ) =~= b);
                                crate::varint::lemma_varint_frame_unambiguous(
                                    b.take(k),
                                    bd,
                                    b.skip(k),
                                    m0.data.subrange(m1.rpos as int, m0.data.len() as int),
                                );
                            }
                        }
                    }
                }
                let vr = &e.variants[d as usize];
                let vf = &vr.fields;
                proof {
                    lemma_variant_size(e.variants@, d as int);
                    lemma_variants_index_ok(e.variants@, d as int);
                    assert(*vr == e.variants@[d as int]);
                    assert(fields_size(vf@) < schema_size(*s));
                }
                match load_fields(vf, vr.named, loader) {
                    Ok(vals) => {
                        proof {
                            let c = m0.data.subrange(m0.rpos as int, loader@.rpos as int);
                            let k = bd.len() as int;
                            assert(c.take(k) =~= bd);
                            assert(c.skip(k) =~= m0.data.subrange(
                                m1.rpos as int,
                                loader@.rpos as int,
                            ));
                            assert(0 <= k <= c.len() && crate::varint::varint_fits(
                                c.take(k),
                                32,
                            ) && crate::varint::varint_value(c.take(k)) == d as nat
                                && fields_accept(
                                vmodels(vals@),
                                e.variants@[d as int].fields@,
                                m0.le,
                                c.skip(k),
                            ));
                        }
                        Ok(Value::VEnum(d, vals))
                    },
                    Err(e2) => {
                        proof {
                            assert forall|g: GValue, b: Seq<u8>|
                                v_accepts(g, *s, m0.le, b) && m0.starts_with(
                                    b,
                                ) implies false by {
                                let k = choose|k: int|
                                    0 <= k <= b.len() && crate::varint::varint_fits(b.take(k), 32)
                                        && crate::varint::varint_value(b.take(k)) == g->GEnum_0
                                        && fields_accept(
                                        g->GEnum_1,
                                        e.variants@[g->GEnum_0 as int].fields@,
                                        m0.le,
                                        b.skip(k),
                                    );
                                assert(b.take(k) + (b.skip(k) + m0.data.subrange(
                                    m0.rpos as int + b.len() as int,
                                    m0.data.len() as int,
                                )) =~= m0.data.subrange(m0.rpos as int, m0.data.len() as int));
                                assert(bd + m0.data.subrange(
                                    m1.rpos as int,
                                    m0.data.len() as int,
                                ) =~= m0.data.subrange(m0.rpos as int, m0.data.len() as int));
                                crate::varint::lemma_varint_frame_unambiguous(
                                    b.take(k),
                                    bd,
                                    b.skip(k) + m0.data.subrange(
                                        m0.rpos as int + b.len() as int,
                                        m0.data.len() as int,
                                    ),
                                    m0.data.subrange(m1.rpos as int, m0.data.len() as int),
                                );
                                assert(g->GEnum_0 == d as nat);
                                let c = b.skip(k);
                                assert(bd.len() == k);
                                assert(m1.data.subrange(
                                    m1.rpos as int,
                                    m1.rpos as int + c.len() as int,
                                ) =~= c) by {
                                    assert(forall|j: int|
                                        0 <= j < c.len() ==> c[j] == b[k + j] && b[k + j]
                                            == m0.data[m0.rpos + k + j]);
                                }
                                assert(m1.starts_with(c));
                                assert(fields_accept(
                                    g->GEnum_1,
                                    e.variants@[d as int].fields@,
                                    m1.le,
                                    c,
                                ) && m1.starts_with(c));
                            }
                        }
                        Err(e2)
                    },
                }
            } else {
                let ghost w = disc_width(countn);
                let d: u32 = if (count as u64) < 256 {
                    match loader.pop_u8() {
                        Some(x) => x as u32,
                        None => {
                            proof {
                                assert forall|g: GValue, b: Seq<u8>|
                                    v_accepts(g, *s, m0.le, b) && m0.starts_with(
                                        b,
                                    ) implies false by {
                                    assert(b.len() >= 1);
                                }
                            }
                            return Err(
                                "Failed to load enum discriminant from Loader!".to_string(),
                            );
                        },
                    }
                } else if (count as u64) < 65536 {
                    match loader.pop_u16() {
                        Some(x) => x as u32,
                        None => {
                            proof {
                                assert forall|g: GValue, b: Seq<u8>|
                                    v_accepts(g, *s, m0.le, b) && m0.starts_with(
                                        b,
                                    ) implies false by {
                                    assert(b.len() >= 2);
                                }
                            }
                            return Err(
                                "Failed to load enum discriminant from Loader!".to_string(),
                            );
                        },
                    }
                } else {
                    match loader.pop_u32() {
                        Some(x) => x,
                        None => {
                            proof {
                                assert forall|g: GValue, b: Seq<u8>|
                                    v_accepts(g, *s, m0.le, b) && m0.starts_with(
                                        b,
                                    ) implies false by {
                                    assert(b.len() >= 4);
                                }
                            }
                            return Err(
                                "Failed to load enum discriminant from Loader!".to_string(),
                            );
                        },
                    }
                };
                proof {
                    assert(m0.data.subrange(m0.rpos as int, m0.rpos as int + w) =~= disc_bytes(
                        d as nat,
                        countn,
                        m0.le,
                    )) by {
                        if countn < 256 {
                            assert(m0.data.subrange(m0.rpos as int, m0.rpos as int + 1) =~= seq![
                                (d as nat) as u8,
                            ]);
                        } else if countn < 65536 {
                            assert((d as nat) as u16 == d as u16);
                        } else {
                            assert((d as nat) as u32 == d);
                        }
                    }
                }
                if (d as usize) >= count {
                    proof {
                        assert forall|g: GValue, b: Seq<u8>|
                            v_accepts(g, *s, m0.le, b) && m0.starts_with(b) implies false by {
                            let dd = g->GEnum_0;
                            assert(b.take(w) =~= m0.data.subrange(
                                m0.rpos as int,
                                m0.rpos as int + w,
                            ));
                            if countn < 256 {
                                assert(disc_bytes(dd, countn, m0.le)[0] == dd as u8);
                                assert(dd == d as nat);
                            } else if countn < 65536 {
                                crate::wire::lemma_bytes2_injective(dd as u16, d as u16, m0.le);
                                assert(dd == d as nat);
                            } else {
                                crate::wire::lemma_bytes4_injective(dd as u32, d, m0.le);
                                assert(dd == d as nat);
                            }
                        }
                    }
                    return Err(
                        "Failed to load enum: unknown variant discriminant!".to_string(),
                    );
                }
                proof {
                    let b = m0.remaining();
                    assert(!unknown_discriminant(*s, b, m0.le)) by {
                        if countn < 256 {
                            assert(b[0] == m0.data[m0.rpos as int]);
                        } else if countn < 65536 {
                            assert forall|dd: u16|
                                !(b.len() >= 2 && b.take(2) == bytes2(dd, m0.le) && dd as nat
                                    >= countn) by {
                                if b.len() >= 2 && b.take(2) == bytes2(dd, m0.le) {
                                    assert(b.take(2) =~= m0.data.subrange(
                                        m0.rpos as int,
                                        m0.rpos as int + 2,
                                    ));
                                    crate::wire::lemma_bytes2_injective(dd, d as u16, m0.le);
                                }
                            }
                        } else {
                            assert forall|dd: u32|
                                !(b.len() >= 4 && b.take(4) == bytes4(dd, m0.le) && dd as nat
                                    >= countn) by {
                                if b.len() >= 4 && b.take(4) == bytes4(dd, m0.le) {
                                    assert(b.take(4) =~= m0.data.subrange(
                                        m0.rpos as int,
                                        m0.rpos as int + 4,
                                    ));
                                    crate::wire::lemma_bytes4_injective(dd, d, m0.le);
                                }
                            }
                        }
                    }
                }
                let ghost m1 = loader@;
                let vr = &e.variants[d as usize];
                let vf = &vr.fields;
                proof {
                    lemma_variant_size(e.variants@, d as int);
                    lemma_variants_index_ok(e.variants@, d as int);
                    assert(*vr == e.variants@[d as int]);
                    assert(fields_size(vf@) < schema_size(*s));
                }
                match load_fields(vf, vr.named, loader) {
                    Ok(vals) => {
                        proof {
                            let c = m0.data.subrange(m0.rpos as int, loader@.rpos as int);
                            assert(c.take(w) =~= m0.data.subrange(
                                m0.rpos as int,
                                m0.rpos as int + w,
                            ));
                            assert(c.skip(w) =~= m0.data.subrange(
                                m1.rpos as int,
                                loader@.rpos as int,
                            ));
                        }
                        Ok(Value::VEnum(d, vals))
                    },
                    Err(e2) => {
                        proof {
                            assert forall|g: GValue, b: Seq<u8>|
                                v_accepts(g, *s, m0.le, b) && m0.starts_with(
                                    b,
                                ) implies false by {
                                let dd = g->GEnum_0;
                                assert(b.take(w) =~= m0.data.subrange(
                                    m0.rpos as int,
                                    m0.rpos as int + w,
                                ));
                                if countn < 256 {
                                    assert(disc_bytes(dd, countn, m0.le)[0] == dd as u8);
                                    assert(dd == d as nat);
                                } else if countn < 65536 {
                                    crate::wire::lemma_bytes2_injective(
                                        dd as u16,
                                        d as u16,
                                        m0.le,
                                    );
                                    assert(dd == d as nat);
                                } else {
                                    crate::wire::lemma_bytes4_injective(dd as u32, d, m0.le);
                                    assert(dd == d as nat);
                                }
                                let c = b.skip(w);
                                assert(m1.data.subrange(
                                    m1.rpos as int,
                                    m1.rpos as int + c.len() as int,
                                ) =~= c);
                                assert(m1.starts_with(c));
                                assert(fields_accept(
                                    g->GEnum_1,
                                    e.variants@[d as int].fields@,
                                    m1.le,
                                    c,
                                ) && m1.starts_with(c));
                            }
                        }
                        Err(e2)
                    },
                }
            }
        },
    }
}

#[verifier::loop_isolation(false)]
#[verifier::rlimit(100)]
#[verifier::spinoff_prover]
fn load_fields(fields: &Vec<FieldSchema>, named: bool, loader: &mut ByteBuffer) -> (r: Result<
    Vec<Value>,
    String,
>)
    requires
        fields_ok(fields@, named),
    ensures
        final(loader)@.data == old(loader)@.data,
        final(loader)@.le == old(loader)@.le,
        final(loader)@.rpos >= old(loader)@.rpos,
        final(loader)@.rpos <= old(loader)@.data.len(),
        r matches Ok(vals) ==> fields_conform(vmodels(vals@), fields@) && fields_defaults(
            vmodels(vals@),
            fields@,
        ) && fields_accept(
            vmodels(vals@),
            fields@,
            old(loader)@.le,
            old(loader)@.data.subrange(old(loader)@.rpos as int, final(loader)@.rpos as int),
        ),
        r is Err ==> !(exists|gs: Seq<GValue>, b: Seq<u8>|
            fields_accept(gs, fields@, old(loader)@.le, b) && old(loader)@.starts_with(b)),
    decreases fields_size(fields@),
{
    proof {
        loader.lemma_rpos_bound();
    }
    let ghost m0 = loader@;
    let n = fields.len();
    let mut vals: Vec<Value> = Vec::new();
    let mut i: usize = 0;
    proof {
        assert(vmodels(vals@) =~= Seq::<GValue>::empty());
        assert(fields@.take(0) =~= Seq::<FieldSchema>::empty());
        assert(m0.data.subrange(m0.rpos as int, m0.rpos as int) =~= Seq::<u8>::empty());
    }
    while i < n
        invariant
            m0 == old(loader)@,
            i <= n,
            n == fields@.len(),
            vals@.len() == i,
            vmodels(vals@).len() == i,
            fields_ok(fields@, named),
            loader@.data == m0.data,
            loader@.le == m0.le,
            m0.rpos <= loader@.rpos <= loader@.data.len(),
            fields_conform(vmodels(vals@), fields@.take(i as int)),
            fields_defaults(vmodels(vals@), fields@.take(i as int)),
            fields_accept(
                vmodels(vals@),
                fields@.take(i as int),
                m0.le,
                m0.data.subrange(m0.rpos as int, loader@.rpos as int),
            ),
        decreases n - i,
    {
        proof {
            lemma_fields_index_ok(fields@, named, i as int);
            lemma_field_size(fields@, i as int);
        }
        let ghost mcur = loader@;
        let ghost consumed = m0.data.subrange(m0.rpos as int, loader@.rpos as int);
        let f = &fields[i];
        let loaded: Value = match &f.rule {
            FieldRule::Normal => match load_value(&f.ty, loader) {
                Ok(v) => v,
                Err(e) => {
                    proof {
                        assert forall|g: GValue, c: Seq<u8>|
                            !(field_accepts(g, fields@[i as int], m0.le, c) && mcur.starts_with(
                                c,
                            )) by {
                            if field_accepts(g, fields@[i as int], m0.le, c) && mcur.starts_with(
                                c,
                            ) {
                                assert(v_accepts(g, fields@[i as int].ty, m0.le, c)
                                    && mcur.starts_with(c));
                            }
                        }
                        lemma_fields_load_fails(
                            m0,
                            mcur,
                            fields@,
                            named,
                            i as int,
                            vmodels(vals@),
                        );
                    }
                    return Err(e);
                },
            },
            FieldRule::Unsaved(d) => clone_value(d),
            FieldRule::Custom(c) => match c {
                CustomCodec::Str8 => match string8_load(loader) {
                    Ok(t) => Value::VStr(t),
                    Err(e) => {
                        proof {
                            assert forall|g: GValue, ch: Seq<u8>|
                                !(field_accepts(g, fields@[i as int], m0.le, ch)
                                    && mcur.starts_with(ch)) by {
                                if field_accepts(g, fields@[i as int], m0.le, ch)
                                    && mcur.starts_with(ch) {
                                    let t2 = g->GStr_0;
                                    assert(encode_utf8(t2).len() <= 255 && mcur.starts_with(
                                        seq![encode_utf8(t2).len() as u8] + encode_utf8(t2),
                                    ));
                                }
                            }
                            lemma_fields_load_fails(
                                m0,
                                mcur,
                                fields@,
                                named,
                                i as int,
                                vmodels(vals@),
                            );
                        }
                        return Err(e);
                    },
                },
                CustomCodec::I32Triple => {
                    let a = match loader.pop_i32() {
                        Some(x) => x,
                        None => {
                            proof {
                                lemma_triple_absent(mcur, fields@[i as int], m0.le, mcur.rpos as int);
                                lemma_fields_load_fails(
                                    m0,
                                    mcur,
                                    fields@,
                                    named,
                                    i as int,
                                    vmodels(vals@),
                                );
                            }
                            return Err("Failed to load i32 from Loader!".to_string());
                        },
                    };
                    let b = match loader.pop_i32() {
                        Some(x) => x,
                        None => {
                            proof {
                                lemma_triple_absent(mcur, fields@[i as int], m0.le, mcur.rpos as int + 4);
                                lemma_fields_load_fails(
                                    m0,
                                    mcur,
                                    fields@,
                                    named,
                                    i as int,
                                    vmodels(vals@),
                                );
                            }
                            return Err("Failed to load i32 from Loader!".to_string());
                        },
                    };
                    let c2 = match loader.pop_i32() {
                        Some(x) => x,
                        None => {
                            proof {
                                lemma_triple_absent(mcur, fields@[i as int], m0.le, mcur.rpos as int + 8);
                                lemma_fields_load_fails(
                                    m0,
                                    mcur,
                                    fields@,
                                    named,
                                    i as int,
                                    vmodels(vals@),
                                );
                            }
                            return Err("Failed to load i32 from Loader!".to_string());
                        },
                    };
                    proof {
                        let c = m0.data.subrange(mcur.rpos as int, loader@.rpos as int);
                        assert(c =~= triple_spelling(a, b, c2, m0.le));
                    }
                    if a == b {
                        proof {
                            let c = m0.data.subrange(mcur.rpos as int, loader@.rpos as int);
                            assert(triple_spelling(a, b, c2, m0.le) == c && triple_value(a, b, c2)
                                == Some(a));
                            assert(field_accepts(
                                vmodel(Value::VI32(a)),
                                fields@[i as int],
                                m0.le,
                                c,
                            ));
                        }
                        Value::VI32(a)
                    } else if b == c2 {
                        proof {
                            let c = m0.data.subrange(mcur.rpos as int, loader@.rpos as int);
                            assert(triple_spelling(a, b, c2, m0.le) == c && triple_value(a, b, c2)
                                == Some(b));
                            assert(field_accepts(
                                vmodel(Value::VI32(b)),
                                fields@[i as int],
                                m0.le,
                                c,
                            ));
                        }
                        Value::VI32(b)
                    } else if a == c2 {
                        proof {
                            let c = m0.data.subrange(mcur.rpos as int, loader@.rpos as int);
                            assert(triple_spelling(a, b, c2, m0.le) == c && triple_value(a, b, c2)
                                == Some(c2));
                            assert(field_accepts(
                                vmodel(Value::VI32(c2)),
                                fields@[i as int],
                                m0.le,
                                c,
                            ));
                        }
                        Value::VI32(c2)
                    } else {
                        proof {
                            lemma_triple_corrupt(mcur, fields@[i as int], m0.le, a, b, c2);
                            lemma_fields_load_fails(
                                m0,
                                mcur,
                                fields@,
                                named,
                                i as int,
                                vmodels(vals@),
                            );
                        }
                        return Err("Error loading i32: all values corrupted!".to_string());
                    }
                },
            },
        };
        let ghost prev = vals@;
        proof {
            let c = m0.data.subrange(mcur.rpos as int, loader@.rpos as int);
            assert(field_accepts(vmodel(loaded), fields@[i as int], m0.le, c)) by {
                match fields@[i as int].rule {
                    FieldRule::Normal => {
                    },
                    FieldRule::Unsaved(_) => {
                        assert(c =~= Seq::<u8>::empty());
                    },
                    FieldRule::Custom(cc) => match cc {
                        CustomCodec::Str8 => {
                            let t = loaded->VStr_0;
                            assert(c =~= seq![encode_utf8(t@).len() as u8] + encode_utf8(t@));
                        },
                        CustomCodec::I32Triple => {
                        },
                    },
                }
            }
            assert(field_conforms(vmodel(loaded), fields@[i as int]));
            assert(field_defaults(vmodel(loaded), fields@[i as int]));
            lemma_fields_accept_snoc(
                vmodels(prev),
                fields@.take(i as int),
                vmodel(loaded),
                fields@[i as int],
                m0.le,
                consumed,
                c,
            );
            assert(consumed + c =~= m0.data.subrange(m0.rpos as int, loader@.rpos as int));
        }
        vals.push(loaded);
        proof {
            lemma_vmodels_snoc(prev, loaded);
            lemma_fields_conform_snoc(
                vmodels(prev),
                fields@.take(i as int),
                vmodel(loaded),
                fields@[i as int],
            );
            lemma_fields_conform_defaults_snoc(
                vmodels(prev),
                fields@.take(i as int),
                vmodel(loaded),
                fields@[i as int],
            );
            assert(fields@.take(i + 1) =~= fields@.take(i as int).push(fields@[i as int]));
            assert(vals@ =~= prev.push(loaded));
        }
        i = i + 1;
    }
    proof {
        assert(fields@.take(n as int) =~= fields@);
    }
    Ok(vals)
}


/// Saving a value under a schema into a fresh buffer and loading it back
/// yields the same value with every unsaved field replaced by its schema
/// default — field partitioning and ordering as one proved law, for any
/// shape whose one-byte-prefixed string fields are short enough not to be
/// cut.
pub fn save_then_load_value(v: &Value, s: &Schema, le: bool) -> (r: Result<Value, String>)
    requires
        schema_ok(*s),
        conforms(vmodel(*v), *s),
        writable(vmodel(*v), *s),
        str8_short(vmodel(*v), *s),
    ensures
        r matches Ok(w) && vmodel(w) == reloaded(vmodel(*v), *s),
{
    let mut buffer = ByteBuffer::with_endian(Vec::new(), le);
    save_value(v, s, &mut buffer);
    let ghost enc = v_enc(vmodel(*v), *s, le);
    proof {
        lemma_v_enc_accepted(vmodel(*v), *s, le);
        assert(buffer@.data =~= enc);
        assert(buffer@.data.subrange(0, enc.len() as int) =~= enc);
        assert(buffer@.starts_with(enc));
    }
    let ghost before = buffer@;
    match load_value(s, &mut buffer) {
        Ok(w) => {
            proof {
                let consumed = before.data.subrange(0, buffer@.rpos as int);
                let rest = before.data.subrange(buffer@.rpos as int, before.data.len() as int);
                assert(consumed + rest =~= enc + Seq::<u8>::empty());
                lemma_v_accepts_unambiguous(
                    vmodel(w),
                    reloaded(vmodel(*v), *s),
                    *s,
                    le,
                    consumed,
                    enc,
                    rest,
                    Seq::empty(),
                );
            }
            Ok(w)
        },
        Err(e) => {
            proof {
                assert(v_accepts(reloaded(vmodel(*v), *s), *s, le, enc) && before.starts_with(
                    enc,
                ));
                assert(false);
            }
            Err(e)
        },
    }
}

/// One variant of a well-formed variant list is itself well formed.
proof fn lemma_variants_index_ok(vs: Seq<RecordSchema>, i: int)
    requires
        0 <= i < vs.len(),
        variants_ok(vs),
    ensures
        fields_ok(vs[i].fields@, vs[i].named),
    decreases vs,
{
    if i > 0 {
        lemma_variants_index_ok(vs.drop_first(), i - 1);
        assert(vs.drop_first()[i - 1] == vs[i]);
    }
}

/// One field of a well-formed field list is itself well formed.
proof fn lemma_fields_index_ok(fs: Seq<FieldSchema>, named: bool, i: int)
    requires
        0 <= i < fs.len(),
        fields_ok(fs, named),
    ensures
        field_ok(fs[i], named),
    decreases fs,
{
    if i > 0 {
        lemma_fields_index_ok(fs.drop_first(), named, i - 1);
        assert(fs.drop_first()[i - 1] == fs[i]);
    }
}

} // verus!

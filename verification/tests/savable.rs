use mvutils::buffer::ByteBuffer;
use mvutils::bytebuffer::ByteBufferExtras;
use mvutils::custom::{
    string8_load, string8_save, varint_load, varint_save, varint_signed_load, varint_signed_save,
    vec8_load, vec8_save,
};
use mvutils::save::{interpret, save_then_load, Savable};
use mvutils::save2::Savable2Convenience;
use mvutils::structural::{
    check_schema, conforms_to, load_value, save_then_load_value, save_value, CustomCodec,
    EnumSchema, FieldRule, FieldSchema, RecordSchema, Schema, Value,
};
use mvutils::version::Version;

#[test]
fn test_bytebuffer_features() {
    let mut buffer = ByteBuffer::new_le();
    buffer.push_u16(0x1000);
    assert_eq!(buffer.as_bytes(), &[0x00, 0x10]);

    let mut buffer = ByteBuffer::from_vec_le(buffer.into_vec());
    assert_eq!(buffer.pop_u16(), Some(0x1000));
}

#[test]
fn test_short_string() {
    let short_string = "Hello".to_string();

    let mut buffer = ByteBuffer::new();
    string8_save(&mut buffer, &short_string);

    assert_eq!(buffer.len(), 6);

    let str = string8_load(&mut buffer).unwrap();

    assert_eq!(short_string, str);

    let mut long_string = String::new();
    for _ in 0..260 {
        long_string.push('c');
    }

    let mut buffer = ByteBuffer::new();
    string8_save(&mut buffer, &long_string);

    assert_eq!(buffer.len(), 256);

    let str = string8_load(&mut buffer).unwrap();

    assert_ne!(short_string, str);

    let mut test_str = String::new();
    for _ in 0..255 {
        test_str.push('c');
    }

    assert_eq!(str, test_str);
}

#[test]
fn test_derive_savable() {
    // the shape of a union whose third variant holds a normal string, an
    // unsaved counter and a redundantly-encoded integer
    let variant_c = RecordSchema {
        named: true,
        fields: vec![
            FieldSchema { rule: FieldRule::Normal, ty: Schema::SStr },
            FieldSchema { rule: FieldRule::Unsaved(Box::new(Value::VU32(0))), ty: Schema::SU32 },
            FieldSchema { rule: FieldRule::Custom(CustomCodec::I32Triple), ty: Schema::SI32 },
        ],
    };
    let schema = Schema::SEnum(EnumSchema {
        varint: false,
        variants: vec![
            RecordSchema { named: true, fields: vec![] },
            RecordSchema {
                named: false,
                fields: vec![FieldSchema { rule: FieldRule::Normal, ty: Schema::SStr }],
            },
            variant_c,
        ],
    });
    assert!(check_schema(&schema));

    let e = Value::VEnum(
        2,
        vec![
            Value::VStr("Hello".to_string()),
            Value::VU32(123),
            Value::VI32(-123),
        ],
    );
    assert!(conforms_to(&e, &schema));

    let mut buffer = ByteBuffer::new();
    save_value(&e, &schema, &mut buffer);
    println!("{:?}", buffer.as_bytes());
    let mut buffer = ByteBuffer::from_bytes(buffer.as_bytes());
    let e = load_value(&schema, &mut buffer).unwrap();
    match &e {
        Value::VEnum(d, fields) => {
            assert_eq!(*d, 2);
            match &fields[0] {
                Value::VStr(s) => assert_eq!(s, "Hello"),
                _ => panic!("wrong field shape"),
            }
            // the unsaved field loads as the schema's default, not 123
            match &fields[1] {
                Value::VU32(x) => assert_eq!(*x, 0),
                _ => panic!("wrong field shape"),
            }
            match &fields[2] {
                Value::VI32(x) => assert_eq!(*x, -123),
                _ => panic!("wrong field shape"),
            }
        },
        _ => panic!("wrong value shape"),
    }
}

#[test]
fn primitive_round_trips() {
    assert_eq!(save_then_load(&0x12u8, true).unwrap(), 0x12);
    assert_eq!(save_then_load(&0x1000u16, true).unwrap(), 0x1000);
    assert_eq!(save_then_load(&0xDEADBEEFu32, false).unwrap(), 0xDEADBEEF);
    assert_eq!(save_then_load(&u64::MAX, true).unwrap(), u64::MAX);
    assert_eq!(save_then_load(&true, true).unwrap(), true);
    assert_eq!(save_then_load(&(-5i8), true).unwrap(), -5);
    assert_eq!(save_then_load(&(-30000i16), false).unwrap(), -30000);
    assert_eq!(save_then_load(&i32::MIN, true).unwrap(), i32::MIN);
    assert_eq!(save_then_load(&i64::MIN, true).unwrap(), i64::MIN);
    assert_eq!(save_then_load(&usize::MAX, true).unwrap(), usize::MAX);
    assert_eq!(save_then_load(&0usize, true).unwrap(), 0);
    assert_eq!(save_then_load(&isize::MIN, true).unwrap(), isize::MIN);
    assert_eq!(save_then_load(&(-1isize), true).unwrap(), -1);
}

#[test]
fn u16_little_endian_bytes() {
    // the fixed-width example: 0x1000 in little endian is [0x00, 0x10]
    let mut buffer = ByteBuffer::new_le();
    Savable::save(&0x1000u16, &mut buffer);
    assert_eq!(buffer.as_bytes(), &[0x00, 0x10]);
    assert_eq!(u16::load(&mut buffer).unwrap(), 0x1000);

    // and big endian flips it
    let mut buffer = ByteBuffer::new_be();
    Savable::save(&0x1000u16, &mut buffer);
    assert_eq!(buffer.as_bytes(), &[0x10, 0x00]);
}

#[test]
fn composite_round_trips() {
    let v: Vec<u32> = vec![1, 2, 3, 0xFFFFFFFF];
    assert_eq!(save_then_load(&v, true).unwrap(), v);

    let s = "héllo wörld".to_string();
    assert_eq!(save_then_load(&s, true).unwrap(), s);

    let o: Option<String> = Some("x".to_string());
    assert_eq!(save_then_load(&o, false).unwrap(), o);
    let n: Option<u8> = None;
    assert_eq!(save_then_load(&n, true).unwrap(), n);

    let r: Result<u32, String> = Err("bad".to_string());
    assert_eq!(save_then_load(&r, true).unwrap(), r);
    let r2: Result<u32, String> = Ok(7);
    assert_eq!(save_then_load(&r2, true).unwrap(), r2);

    let b: Box<u64> = Box::new(99);
    assert_eq!(save_then_load(&b, true).unwrap(), b);

    let nested: Vec<Option<String>> = vec![None, Some("deep".to_string()), None];
    assert_eq!(save_then_load(&nested, true).unwrap(), nested);

    let ver = Version::new(1, 2, 3, 4);
    assert_eq!(save_then_load(&ver, true).unwrap(), ver);

    let span = mvutils::save::Duration { secs: 90, nanos: 125_000_000 };
    assert_eq!(save_then_load(&span, true).unwrap(), span);
    let mut buffer = ByteBuffer::new_le();
    Savable::save(&span, &mut buffer);
    assert_eq!(buffer.len(), 12);
}

#[test]
fn pair_range_and_buffer_round_trips() {
    let pair = (7u32, "x".to_string());
    assert_eq!(save_then_load(&pair, true).unwrap(), pair);

    let range = 3u32..90u32;
    assert_eq!(save_then_load(&range, false).unwrap(), range);

    let entries: Vec<(String, u64)> = vec![("a".to_string(), 1), ("b".to_string(), 2)];
    assert_eq!(save_then_load(&entries, true).unwrap(), entries);

    // a buffer saved as a value: its bytes come back, behind an 8-byte length
    let inner = ByteBuffer::from_vec(vec![9, 8, 7]);
    let mut outer = ByteBuffer::new_le();
    Savable::save(&inner, &mut outer);
    assert_eq!(outer.len(), 11);
    let back = ByteBuffer::load(&mut outer).unwrap();
    assert_eq!(back.as_bytes(), &[9, 8, 7]);
}

#[test]
fn interpret_reads_raw_bytes() {
    let mut buffer = ByteBuffer::new_le();
    Savable::save(&0xABCD1234u32, &mut buffer);
    let v: u32 = interpret(buffer.into_vec()).unwrap();
    assert_eq!(v, 0xABCD1234);
    let short: Result<u32, String> = interpret(vec![1, 2]);
    assert!(short.is_err());
}

#[test]
fn empty_vec_encodes_to_zero_length() {
    let v: Vec<u8> = Vec::new();
    let mut buffer = ByteBuffer::new_le();
    Savable::save(&v, &mut buffer);
    assert_eq!(buffer.as_bytes(), &[0, 0, 0, 0, 0, 0, 0, 0]);
    let loaded = Vec::<u8>::load(&mut buffer).unwrap();
    assert!(loaded.is_empty());
}

#[test]
fn varint_boundaries() {
    let mut buffer = ByteBuffer::new();
    varint_save(&mut buffer, &0);
    assert_eq!(buffer.as_bytes(), &[0x00]);

    let mut buffer = ByteBuffer::new();
    varint_save(&mut buffer, &127);
    assert_eq!(buffer.as_bytes(), &[0x7F]);

    let mut buffer = ByteBuffer::new();
    varint_save(&mut buffer, &128);
    assert_eq!(buffer.as_bytes(), &[0x80, 0x01]);

    let mut buffer = ByteBuffer::from_vec(vec![0x80, 0x01]);
    assert_eq!(varint_load(&mut buffer).unwrap(), 128);

    // a redundant spelling with a trailing zero group is still accepted
    let mut buffer = ByteBuffer::from_vec(vec![0x80, 0x00]);
    assert_eq!(varint_load(&mut buffer).unwrap(), 0);

    // ten full groups would carry bits past the sixty-fourth: rejected
    let mut buffer = ByteBuffer::from_vec(vec![0xFF; 10]);
    assert!(varint_load(&mut buffer).is_err());

    // an eleventh group shifts past the width outright
    let mut wide = vec![0x80; 10];
    wide.push(0x01);
    let mut buffer = ByteBuffer::from_vec(wide);
    assert!(varint_load(&mut buffer).is_err());

    let mut buffer = ByteBuffer::new();
    varint_signed_save(&mut buffer, &-1);
    assert_eq!(buffer.as_bytes(), &[0x01]);
    let mut buffer = ByteBuffer::from_vec(vec![0x01]);
    assert_eq!(varint_signed_load(&mut buffer).unwrap(), -1);
}

fn unit_variants(count: usize) -> Schema {
    let mut variants = Vec::new();
    for _ in 0..count {
        variants.push(RecordSchema { named: true, fields: vec![] });
    }
    Schema::SEnum(EnumSchema { varint: false, variants })
}

fn unit_variants_varint(count: usize) -> Schema {
    let mut variants = Vec::new();
    for _ in 0..count {
        variants.push(RecordSchema { named: true, fields: vec![] });
    }
    Schema::SEnum(EnumSchema { varint: true, variants })
}

#[test]
fn discriminant_width_boundaries() {
    for (count, width) in [(255usize, 1usize), (256, 2), (65535, 2), (65536, 4)] {
        let schema = unit_variants(count);
        let value = Value::VEnum((count - 1) as u32, vec![]);
        let mut buffer = ByteBuffer::new();
        save_value(&value, &schema, &mut buffer);
        assert_eq!(buffer.len(), width);
    }
}

#[test]
fn varint_discriminants() {
    // a varint-marked union writes its index as LEB128, whatever the count
    let schema = unit_variants_varint(300);
    let mut buffer = ByteBuffer::new();
    save_value(&Value::VEnum(5, vec![]), &schema, &mut buffer);
    assert_eq!(buffer.as_bytes(), &[5]);
    let mut buffer = ByteBuffer::new();
    save_value(&Value::VEnum(200, vec![]), &schema, &mut buffer);
    assert_eq!(buffer.as_bytes(), &[0xC8, 0x01]);
    let loaded = load_value(&schema, &mut buffer).unwrap();
    assert!(matches!(loaded, Value::VEnum(200, _)));
    // an index at the variant count is still refused
    let mut buffer = ByteBuffer::from_vec(vec![0xAC, 0x02]);
    assert!(load_value(&schema, &mut buffer).is_err());
}

#[test]
fn unknown_discriminant_fails() {
    let schema = unit_variants(3);
    let mut buffer = ByteBuffer::from_vec(vec![7]);
    assert!(load_value(&schema, &mut buffer).is_err());
    // the count itself is already out of range: variants are zero-based
    let mut buffer = ByteBuffer::from_vec(vec![3]);
    assert!(load_value(&schema, &mut buffer).is_err());
    let mut buffer = ByteBuffer::from_vec(vec![2]);
    assert!(load_value(&schema, &mut buffer).is_ok());
}

#[test]
fn struct_field_partitioning() {
    let schema = Schema::SRec(RecordSchema {
        named: true,
        fields: vec![
            FieldSchema { rule: FieldRule::Normal, ty: Schema::SStr },
            FieldSchema { rule: FieldRule::Unsaved(Box::new(Value::VU32(0))), ty: Schema::SU32 },
            FieldSchema { rule: FieldRule::Custom(CustomCodec::I32Triple), ty: Schema::SI32 },
        ],
    });
    assert!(check_schema(&schema));
    let original = Value::VRec(vec![
        Value::VStr("kept".to_string()),
        Value::VU32(424242),
        Value::VI32(-9),
    ]);
    let mut buffer = ByteBuffer::new();
    save_value(&original, &schema, &mut buffer);
    let loaded = load_value(&schema, &mut buffer).unwrap();
    match loaded {
        Value::VRec(fields) => {
            assert!(matches!(&fields[0], Value::VStr(s) if s == "kept"));
            assert!(matches!(&fields[1], Value::VU32(0)));
            assert!(matches!(&fields[2], Value::VI32(-9)));
        },
        _ => panic!("wrong shape"),
    }
}

#[test]
fn structural_round_trip_law() {
    // the proved law on concrete values: normal and custom fields come
    // back unchanged, the unsaved one comes back as its default
    let schema = Schema::SRec(RecordSchema {
        named: true,
        fields: vec![
            FieldSchema { rule: FieldRule::Normal, ty: Schema::SStr },
            FieldSchema { rule: FieldRule::Unsaved(Box::new(Value::VU32(7))), ty: Schema::SU32 },
            FieldSchema { rule: FieldRule::Custom(CustomCodec::Str8), ty: Schema::SStr },
            FieldSchema { rule: FieldRule::Custom(CustomCodec::I32Triple), ty: Schema::SI32 },
        ],
    });
    assert!(check_schema(&schema));
    let original = Value::VRec(vec![
        Value::VStr("alpha".to_string()),
        Value::VU32(991),
        Value::VStr("beta".to_string()),
        Value::VI32(-3),
    ]);
    let loaded = save_then_load_value(&original, &schema, true).unwrap();
    match loaded {
        Value::VRec(fields) => {
            assert!(matches!(&fields[0], Value::VStr(s) if s == "alpha"));
            assert!(matches!(&fields[1], Value::VU32(7)));
            assert!(matches!(&fields[2], Value::VStr(s) if s == "beta"));
            assert!(matches!(&fields[3], Value::VI32(-3)));
        },
        _ => panic!("wrong shape"),
    }
}

#[test]
fn unsaved_in_unnamed_record_is_refused() {
    let schema = Schema::SRec(RecordSchema {
        named: false,
        fields: vec![
            FieldSchema { rule: FieldRule::Unsaved(Box::new(Value::VU32(0))), ty: Schema::SU32 },
        ],
    });
    assert!(!check_schema(&schema));
}

#[test]
fn save_and_load_order_must_agree() {
    // a record of three normal fields (x, y, z)
    let schema = Schema::SRec(RecordSchema {
        named: true,
        fields: vec![
            FieldSchema { rule: FieldRule::Normal, ty: Schema::SU32 },
            FieldSchema { rule: FieldRule::Normal, ty: Schema::SU32 },
            FieldSchema { rule: FieldRule::Normal, ty: Schema::SU32 },
        ],
    });
    let (x, y, z) = (1u32, 2u32, 3u32);
    // writing the fields by hand in the order (x, z, y) instead of the
    // schema's (x, y, z) corrupts what a schema-driven load reads back
    let mut buffer = ByteBuffer::new();
    buffer.push_u32(x);
    buffer.push_u32(z);
    buffer.push_u32(y);
    let loaded = load_value(&schema, &mut buffer).unwrap();
    match loaded {
        Value::VRec(fields) => {
            assert!(matches!(&fields[1], Value::VU32(3)));
            assert!(matches!(&fields[2], Value::VU32(2)));
            // the schema-driven save puts them back in declaration order
            let mut buffer = ByteBuffer::new();
            save_value(&Value::VRec(vec![Value::VU32(x), Value::VU32(y), Value::VU32(z)]), &schema, &mut buffer);
            let reread = load_value(&schema, &mut buffer).unwrap();
            match reread {
                Value::VRec(fields2) => {
                    assert!(matches!(&fields2[1], Value::VU32(2)));
                    assert!(matches!(&fields2[2], Value::VU32(3)));
                },
                _ => panic!("wrong shape"),
            }
        },
        _ => panic!("wrong shape"),
    }
}

#[test]
fn load_errors() {
    // an empty buffer holds no integer
    let mut buffer = ByteBuffer::new();
    assert!(u8::load(&mut buffer).is_err());
    assert!(u64::load(&mut buffer).is_err());

    // an option tag may only be 0 or 1
    let mut buffer = ByteBuffer::from_vec(vec![2]);
    assert!(Option::<u8>::load(&mut buffer).is_err());

    // a result tag may only be 0 or 1
    let mut buffer = ByteBuffer::from_vec(vec![9, 0]);
    assert!(Result::<u8, u8>::load(&mut buffer).is_err());

    // a string whose bytes are not UTF-8 is refused
    let mut buffer = ByteBuffer::new_le();
    buffer.push_u32(2);
    buffer.push_u8(0xFF);
    buffer.push_u8(0xFE);
    assert!(String::load(&mut buffer).is_err());

    // a sequence longer than its bytes is refused
    let mut buffer = ByteBuffer::new_le();
    buffer.push_u64(5);
    buffer.push_u8(1);
    assert!(Vec::<u8>::load(&mut buffer).is_err());

    // a redundant triple with three different values is corrupt
    let schema = Schema::SRec(RecordSchema {
        named: true,
        fields: vec![
            FieldSchema { rule: FieldRule::Custom(CustomCodec::I32Triple), ty: Schema::SI32 },
        ],
    });
    let mut buffer = ByteBuffer::new();
    buffer.push_i32(1);
    buffer.push_i32(2);
    buffer.push_i32(3);
    assert!(load_value(&schema, &mut buffer).is_err());
    // but one corrupted copy is recovered by the other two
    let mut buffer = ByteBuffer::new();
    buffer.push_i32(5);
    buffer.push_i32(99);
    buffer.push_i32(5);
    let loaded = load_value(&schema, &mut buffer).unwrap();
    match loaded {
        Value::VRec(fields) => assert!(matches!(&fields[0], Value::VI32(5))),
        _ => panic!("wrong shape"),
    }
}

#[test]
fn bounded_vec_codec_truncates() {
    let big: Vec<u8> = vec![7; 300];
    let mut buffer = ByteBuffer::new();
    vec8_save(&mut buffer, &big);
    assert_eq!(buffer.len(), 256);
    let loaded: Vec<u8> = vec8_load(&mut buffer).unwrap();
    assert_eq!(loaded.len(), 255);
    assert_eq!(&loaded[..], &big[..255]);
}

#[test]
fn load_static_builds_from_default() {
    let mut buffer = ByteBuffer::new_le();
    mvutils::save2::Savable2::save(&0xABCDu16, &mut buffer);
    let v = u16::load_static(&mut buffer).unwrap();
    assert_eq!(v, 0xABCD);
}

#[test]
fn vulkan_version_packing() {
    let v = Version::new(1, 2, 3, 4);
    let packed = v.as_vulkan_version();
    let back = Version::parse_vulkan(packed);
    assert_eq!(back, v);
    assert_eq!(back.variant(), 1);
    assert_eq!(back.major(), 2);
    assert_eq!(back.minor(), 3);
    assert_eq!(back.patch(), 4);

    assert_eq!(Version::new(0, 4, 6, 0).to_glsl_string(), "#version 460");

    let mut v2 = Version::new(0, 1, 0, 0);
    v2.set_major(9);
    v2.set_minor(8);
    v2.set_patch(7);
    v2.set_variant(2);
    assert_eq!(v2, Version::new(2, 9, 8, 7));
}

#[test]
fn buffer_cursors() {
    let mut b = ByteBuffer::with_capacity(16);
    assert!(b.is_empty());
    b.push_bytes(&[1, 2, 3, 4]);
    assert_eq!(b.len(), 4);
    assert_eq!(b.get_rpos(), 0);
    assert_eq!(b.pop_bytes(2), Some(vec![1, 2]));
    assert_eq!(b.get_rpos(), 2);
    assert_eq!(b.pop_to_end(), Some(vec![3, 4]));
    b.reset_cursors();
    assert_eq!(b.get_rpos(), 0);
    b.set_rpos(99);
    assert_eq!(b.get_rpos(), 4);
    assert!(!b.is_little_endian());
}

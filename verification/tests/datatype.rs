//! Tests of the module `datatype`.

use byteorder::{ByteOrder, LittleEndian};
use rustyhdf5_format::datatype::{
    CLASS_ID_ARRAY, CLASS_ID_BIT_FIELD, CLASS_ID_COMPOUND, CLASS_ID_ENUMERATION,
    CLASS_ID_FIXED_POINT, CLASS_ID_FLOATING_POINT, CLASS_ID_OPAQUE, CLASS_ID_REFERENCE,
    CLASS_ID_STRING, CLASS_ID_TIME, CLASS_ID_VARIABLE_LENGTH, CharacterSet, CompoundMember,
    Datatype, DatatypeByteOrder, EnumMember, ReferenceType, StringPadding,
};
use rustyhdf5_format::error::FormatError;

// Helper to build a fixed-point datatype message
fn build_fixed_point(
    size: u32,
    be: bool,
    signed: bool,
    bit_offset: u16,
    bit_precision: u16,
) -> Vec<u8> {
    let bf0 = if be { 0x01 } else { 0x00 } | if signed { 0x08 } else { 0x00 };
    let mut buf = Datatype::build_header(CLASS_ID_FIXED_POINT, 1, [bf0, 0, 0], size);
    let mut props = [0u8; 4];
    LittleEndian::write_u16(&mut props[0..2], bit_offset);
    LittleEndian::write_u16(&mut props[2..4], bit_precision);
    buf.extend_from_slice(&props);
    buf
}

// Helper to build a floating-point datatype message
fn build_float(
    size: u32,
    exp_loc: u8,
    exp_size: u8,
    mant_loc: u8,
    mant_size: u8,
    exp_bias: u32,
) -> Vec<u8> {
    // LE byte order: bo_low=0, bo_high=0
    let bf0 = 0x00u8;
    let bf1 = 0x00u8;
    // mantissa norm = 2 (MSB not stored) in bits 24-31... wait, that's bf2
    let bf2 = 0x02u8; // norm = 2
    let mut buf = Datatype::build_header(CLASS_ID_FLOATING_POINT, 1, [bf0, bf1, bf2], size);
    let mut props = [0u8; 12];
    LittleEndian::write_u16(&mut props[0..2], 0); // bit_offset
    LittleEndian::write_u16(&mut props[2..4], (size * 8) as u16); // bit_precision
    props[4] = exp_loc;
    props[5] = exp_size;
    props[6] = mant_loc;
    props[7] = mant_size;
    LittleEndian::write_u32(&mut props[8..12], exp_bias);
    buf.extend_from_slice(&props);
    buf
}

#[test]
fn test_fixed_point_u8_le() {
    let data = build_fixed_point(1, false, false, 0, 8);
    let (dt, consumed) = Datatype::parse(&data).unwrap();
    assert_eq!(consumed, 12);
    assert_eq!(dt, Datatype::u8_le());
}

#[test]
fn test_fixed_point_u8_be() {
    let data = build_fixed_point(1, true, false, 0, 8);
    let (dt, consumed) = Datatype::parse(&data).unwrap();
    assert_eq!(consumed, 12);
    assert_eq!(dt, Datatype::u8_be());
}

#[test]
fn test_fixed_point_i8_le() {
    let data = build_fixed_point(1, false, true, 0, 8);
    let (dt, consumed) = Datatype::parse(&data).unwrap();
    assert_eq!(consumed, 12);
    assert_eq!(dt, Datatype::i8_le());
}

#[test]
fn test_fixed_point_i8_be() {
    let data = build_fixed_point(1, true, true, 0, 8);
    let (dt, consumed) = Datatype::parse(&data).unwrap();
    assert_eq!(consumed, 12);
    assert_eq!(dt, Datatype::i8_be());
}

#[test]
fn test_fixed_point_u16_le() {
    let data = build_fixed_point(2, false, false, 0, 16);
    let (dt, consumed) = Datatype::parse(&data).unwrap();
    assert_eq!(consumed, 12);
    assert_eq!(dt, Datatype::u16_le());
}

#[test]
fn test_fixed_point_u16_be() {
    let data = build_fixed_point(2, true, false, 0, 16);
    let (dt, consumed) = Datatype::parse(&data).unwrap();
    assert_eq!(consumed, 12);
    assert_eq!(dt, Datatype::u16_be());
}

#[test]
fn test_fixed_point_i16_le() {
    let data = build_fixed_point(2, false, true, 0, 16);
    let (dt, consumed) = Datatype::parse(&data).unwrap();
    assert_eq!(consumed, 12);
    assert_eq!(dt, Datatype::i16_le());
}

#[test]
fn test_fixed_point_i16_be() {
    let data = build_fixed_point(2, true, true, 0, 16);
    let (dt, consumed) = Datatype::parse(&data).unwrap();
    assert_eq!(consumed, 12);
    assert_eq!(dt, Datatype::i16_be());
}

#[test]
fn test_fixed_point_u32_le() {
    let data = build_fixed_point(4, false, false, 0, 32);
    let (dt, consumed) = Datatype::parse(&data).unwrap();
    assert_eq!(consumed, 12);
    assert_eq!(dt, Datatype::u32_le());
}

#[test]
fn test_fixed_point_u32_be() {
    let data = build_fixed_point(4, true, false, 0, 32);
    let (dt, consumed) = Datatype::parse(&data).unwrap();
    assert_eq!(consumed, 12);
    assert_eq!(dt, Datatype::u32_be());
}

#[test]
fn test_fixed_point_i32_le() {
    let data = build_fixed_point(4, false, true, 0, 32);
    let (dt, consumed) = Datatype::parse(&data).unwrap();
    assert_eq!(consumed, 12);
    assert_eq!(dt, Datatype::i32_le());
}

#[test]
fn test_fixed_point_i32_be() {
    let data = build_fixed_point(4, true, true, 0, 32);
    let (dt, consumed) = Datatype::parse(&data).unwrap();
    assert_eq!(consumed, 12);
    assert_eq!(dt, Datatype::i32_be());
}

#[test]
fn test_fixed_point_u64_le() {
    let data = build_fixed_point(8, false, false, 0, 64);
    let (dt, consumed) = Datatype::parse(&data).unwrap();
    assert_eq!(consumed, 12);
    assert_eq!(dt, Datatype::u64_le());
}

#[test]
fn test_fixed_point_u64_be() {
    let data = build_fixed_point(8, true, false, 0, 64);
    let (dt, consumed) = Datatype::parse(&data).unwrap();
    assert_eq!(consumed, 12);
    assert_eq!(dt, Datatype::u64_be());
}

#[test]
fn test_fixed_point_i64_le() {
    let data = build_fixed_point(8, false, true, 0, 64);
    let (dt, consumed) = Datatype::parse(&data).unwrap();
    assert_eq!(consumed, 12);
    assert_eq!(dt, Datatype::i64_le());
}

#[test]
fn test_fixed_point_i64_be() {
    let data = build_fixed_point(8, true, true, 0, 64);
    let (dt, consumed) = Datatype::parse(&data).unwrap();
    assert_eq!(consumed, 12);
    assert_eq!(dt, Datatype::i64_be());
}

#[test]
fn test_float_f32_le() {
    // IEEE 754 f32: exp=8 bits at bit 23, mant=23 bits at bit 0, bias=127
    let data = build_float(4, 23, 8, 0, 23, 127);
    let (dt, consumed) = Datatype::parse(&data).unwrap();
    assert_eq!(consumed, 20);
    assert_eq!(dt, Datatype::f32_le());
}

#[test]
fn test_float_f64_le() {
    let data = build_float(8, 52, 11, 0, 52, 1023);
    let (dt, consumed) = Datatype::parse(&data).unwrap();
    assert_eq!(consumed, 20);
    assert_eq!(dt, Datatype::f64_le(),);
}

#[test]
fn test_string_null_terminated_ascii() {
    let size: u32 = 10;
    let buf = Datatype::build_header(CLASS_ID_STRING, 1, [0x00, 0, 0], size); // padding=0(nullterm), charset=0(ascii)
    let (dt, consumed) = Datatype::parse(&buf).unwrap();
    assert_eq!(consumed, 8);
    assert_eq!(dt, Datatype::string_null_terminate_ascii(size));
}

#[test]
fn test_string_space_padded_utf8() {
    let size: u32 = 32;
    // padding=2(space pad), charset=1(utf8) → bf0 = 0x12
    let buf = Datatype::build_header(CLASS_ID_STRING, 1, [0x12, 0, 0], size);
    let (dt, _) = Datatype::parse(&buf).unwrap();
    assert_eq!(dt, Datatype::string_space_padded_utf8(size));
}

#[test]
fn test_opaque() {
    // tag_len = 4, tag = "BLOB"
    let mut buf = Datatype::build_header(CLASS_ID_OPAQUE, 1, [4, 0, 0], 64);
    buf.extend_from_slice(b"BLOB");
    // Pad to 8 bytes
    buf.extend_from_slice(&[0, 0, 0, 0]);
    let (dt, consumed) = Datatype::parse(&buf).unwrap();
    assert_eq!(consumed, 16); // 8 header + 8 padded tag
    assert_eq!(
        dt,
        Datatype::Opaque {
            size: 64,
            tag: b"BLOB".to_vec(),
        }
    );
}

#[test]
fn test_compound_v3_two_members() {
    // Compound with size=12, 2 members: "x" u32 at offset 0, "y" f64 at offset 4
    // Size=12, so offset_bytes=1
    let mut buf = Datatype::build_header(CLASS_ID_COMPOUND, 3, [2, 0, 0], 12); // 2 members
    // Member "x": name "x\0", offset=0, then u32 LE datatype
    buf.extend_from_slice(b"x\0");
    buf.push(0); // byte_offset = 0
    buf.extend_from_slice(&build_fixed_point(4, false, false, 0, 32));
    // Member "y": name "y\0", offset=4, then f64 LE datatype
    buf.extend_from_slice(b"y\0");
    buf.push(4); // byte_offset = 4
    buf.extend_from_slice(&build_float(8, 52, 11, 0, 52, 1023));

    let (dt, _) = Datatype::parse(&buf).unwrap();
    match dt {
        Datatype::Compound { size, members } => {
            assert_eq!(size, 12);
            assert_eq!(members.len(), 2);
            assert_eq!(members[0].name, "x");
            assert_eq!(members[0].byte_offset, 0);
            assert_eq!(members[1].name, "y");
            assert_eq!(members[1].byte_offset, 4);
            match &members[0].datatype {
                Datatype::FixedPoint {
                    size: 4,
                    signed: false,
                    ..
                } => {}
                other => panic!("expected u32, got {other:?}"),
            }
            match &members[1].datatype {
                Datatype::FloatingPoint { size: 8, .. } => {}
                other => panic!("expected f64, got {other:?}"),
            }
        }
        _ => panic!("expected Compound"),
    }
}

#[test]
fn test_reference_object() {
    let buf = Datatype::build_header(CLASS_ID_REFERENCE, 1, [0, 0, 0], 8);
    let (dt, _) = Datatype::parse(&buf).unwrap();
    assert_eq!(
        dt,
        Datatype::Reference {
            size: 8,
            ref_type: ReferenceType::Object,
        }
    );
}

#[test]
fn test_reference_region() {
    let buf = Datatype::build_header(CLASS_ID_REFERENCE, 1, [1, 0, 0], 12);
    let (dt, _) = Datatype::parse(&buf).unwrap();
    assert_eq!(
        dt,
        Datatype::Reference {
            size: 12,
            ref_type: ReferenceType::DatasetRegion,
        }
    );
}

#[test]
fn test_enumeration() {
    // Enum with base type i32 LE, 3 members
    let mut buf = Datatype::build_header(CLASS_ID_ENUMERATION, 3, [3, 0, 0], 4); // 3 members
    // Base type: i32 LE
    buf.extend_from_slice(&build_fixed_point(4, false, true, 0, 32));
    // Names: "RED\0", "GREEN\0", "BLUE\0"
    buf.extend_from_slice(b"RED\0");
    buf.extend_from_slice(b"GREEN\0");
    buf.extend_from_slice(b"BLUE\0");
    // Values: 0, 1, 2 (as i32 LE)
    buf.extend_from_slice(&0i32.to_le_bytes());
    buf.extend_from_slice(&1i32.to_le_bytes());
    buf.extend_from_slice(&2i32.to_le_bytes());

    let (dt, _) = Datatype::parse(&buf).unwrap();
    match dt {
        Datatype::Enumeration {
            size,
            base_type,
            members,
        } => {
            assert_eq!(size, 4);
            assert_eq!(members.len(), 3);
            assert_eq!(members[0].name, "RED");
            assert_eq!(members[0].value, 0i32.to_le_bytes().to_vec());
            assert_eq!(members[1].name, "GREEN");
            assert_eq!(members[1].value, 1i32.to_le_bytes().to_vec());
            assert_eq!(members[2].name, "BLUE");
            assert_eq!(members[2].value, 2i32.to_le_bytes().to_vec());
            match *base_type {
                Datatype::FixedPoint {
                    signed: true,
                    size: 4,
                    ..
                } => {}
                other => panic!("expected i32, got {other:?}"),
            }
        }
        _ => panic!("expected Enumeration"),
    }
}

#[test]
fn test_variable_length_string_utf8() {
    // VL string: type=1, padding=0(null term), charset=1(utf8)
    // bf0: bits 0-3 = 1 (string), bits 4-7 = 0 (null term) → 0x01
    // bf1: bits 0-3 = 1 (utf8) → 0x01
    let mut buf = Datatype::build_header(CLASS_ID_VARIABLE_LENGTH, 1, [0x01, 0x01, 0], 16);
    // Base type: u8 (class 0, unsigned, size 1)
    buf.extend_from_slice(&build_fixed_point(1, false, false, 0, 8));

    let (dt, _) = Datatype::parse(&buf).unwrap();
    match dt {
        Datatype::VariableLength {
            is_string,
            padding,
            charset,
            base_type,
        } => {
            assert!(is_string);
            assert_eq!(padding, Some(StringPadding::NullTerminate));
            assert_eq!(charset, Some(CharacterSet::Utf8));
            assert_eq!(base_type.type_size(), 1);
        }
        _ => panic!("expected VariableLength"),
    }
}

#[test]
fn test_variable_length_sequence_f32() {
    // VL sequence: type=0
    // bf0 = 0x00
    let mut buf = Datatype::build_header(CLASS_ID_VARIABLE_LENGTH, 1, [0x00, 0x00, 0], 16);
    // Base type: f32 LE
    buf.extend_from_slice(&build_float(4, 23, 8, 0, 23, 127));

    let (dt, _) = Datatype::parse(&buf).unwrap();
    match dt {
        Datatype::VariableLength {
            is_string,
            padding,
            charset,
            base_type,
        } => {
            assert!(!is_string);
            assert_eq!(padding, None);
            assert_eq!(charset, None);
            assert_eq!(base_type.type_size(), 4);
        }
        _ => panic!("expected VariableLength"),
    }
}

#[test]
fn test_array_2d() {
    // Array [3][4] of i32 LE, version 3
    let mut buf = Datatype::build_header(CLASS_ID_ARRAY, 3, [0, 0, 0], 48); // 3*4*4=48
    buf.push(2); // ndims=2
    buf.extend_from_slice(&3u32.to_le_bytes()); // dim 0
    buf.extend_from_slice(&4u32.to_le_bytes()); // dim 1
    // Base type: i32 LE
    buf.extend_from_slice(&build_fixed_point(4, false, true, 0, 32));

    let (dt, _) = Datatype::parse(&buf).unwrap();
    match dt {
        Datatype::Array {
            base_type,
            dimensions,
        } => {
            assert_eq!(dimensions, vec![3, 4]);
            match *base_type {
                Datatype::FixedPoint {
                    size: 4,
                    signed: true,
                    ..
                } => {}
                other => panic!("expected i32, got {other:?}"),
            }
        }
        _ => panic!("expected Array"),
    }
}

#[test]
fn test_bitfield() {
    let mut buf = Datatype::build_header(CLASS_ID_BIT_FIELD, 1, [0, 0, 0], 2); // 16-bit LE bitfield
    let mut props = [0u8; 4];
    LittleEndian::write_u16(&mut props[0..2], 0);
    LittleEndian::write_u16(&mut props[2..4], 16);
    buf.extend_from_slice(&props);

    let (dt, _) = Datatype::parse(&buf).unwrap();
    assert_eq!(
        dt,
        Datatype::BitField {
            size: 2,
            byte_order: DatatypeByteOrder::LittleEndian,
            bit_offset: 0,
            bit_precision: 16,
        }
    );
}

#[test]
fn test_time() {
    let mut buf = Datatype::build_header(CLASS_ID_TIME, 1, [0, 0, 0], 8);
    let mut props = [0u8; 2];
    LittleEndian::write_u16(&mut props[0..2], 64);
    buf.extend_from_slice(&props);

    let (dt, consumed) = Datatype::parse(&buf).unwrap();
    assert_eq!(consumed, 10);
    assert_eq!(
        dt,
        Datatype::Time {
            size: 8,
            bit_precision: 64,
        }
    );
}

#[test]
fn test_nested_compound_array_enum() {
    // Compound containing a single member "data" which is an Array[2] of Enum(i32, 2 values)
    // Build the enum first
    let mut enum_bytes = Datatype::build_header(CLASS_ID_ENUMERATION, 3, [2, 0, 0], 4); // 2 members
    enum_bytes.extend_from_slice(&build_fixed_point(4, false, true, 0, 32)); // base i32
    enum_bytes.extend_from_slice(b"A\0");
    enum_bytes.extend_from_slice(b"B\0");
    enum_bytes.extend_from_slice(&0i32.to_le_bytes());
    enum_bytes.extend_from_slice(&1i32.to_le_bytes());

    // Build array[2] of that enum, version 3
    let mut array_bytes = Datatype::build_header(CLASS_ID_ARRAY, 3, [0, 0, 0], 8); // 2*4=8
    array_bytes.push(1); // ndims=1
    array_bytes.extend_from_slice(&2u32.to_le_bytes()); // dim[0]=2
    array_bytes.extend_from_slice(&enum_bytes);

    // Build compound with 1 member, size=8
    let mut buf = Datatype::build_header(CLASS_ID_COMPOUND, 3, [1, 0, 0], 8); // 1 member
    buf.extend_from_slice(b"data\0");
    buf.push(0); // byte_offset = 0 (size=8, so 1 byte offsets)
    buf.extend_from_slice(&array_bytes);

    let (dt, _) = Datatype::parse(&buf).unwrap();
    match dt {
        Datatype::Compound { members, .. } => {
            assert_eq!(members.len(), 1);
            assert_eq!(members[0].name, "data");
            match &members[0].datatype {
                Datatype::Array {
                    dimensions,
                    base_type,
                } => {
                    assert_eq!(dimensions, &[2]);
                    match base_type.as_ref() {
                        Datatype::Enumeration { members, .. } => {
                            assert_eq!(members.len(), 2);
                            assert_eq!(members[0].name, "A");
                            assert_eq!(members[1].name, "B");
                        }
                        other => panic!("expected Enum, got {other:?}"),
                    }
                }
                other => panic!("expected Array, got {other:?}"),
            }
        }
        _ => panic!("expected Compound"),
    }
}

#[test]
fn test_error_invalid_class() {
    let buf = Datatype::build_header(13, 1, [0, 0, 0], 4);
    let err = Datatype::parse(&buf).unwrap_err();
    assert_eq!(err, FormatError::InvalidDatatypeClass(13));
}

#[test]
fn test_error_truncated_data() {
    let buf = [0u8; 4]; // too short for header
    let err = Datatype::parse(&buf).unwrap_err();
    match err {
        FormatError::UnexpectedEof { .. } => {}
        other => panic!("expected UnexpectedEof, got {other:?}"),
    }
}

#[test]
fn test_error_invalid_string_padding() {
    let buf = Datatype::build_header(CLASS_ID_STRING, 1, [0x03, 0, 0], 10); // padding=3 invalid
    let err = Datatype::parse(&buf).unwrap_err();
    assert_eq!(err, FormatError::InvalidStringPadding(3));
}

#[test]
fn test_error_invalid_charset() {
    let buf = Datatype::build_header(CLASS_ID_STRING, 1, [0x20, 0, 0], 10); // charset=2 invalid
    let err = Datatype::parse(&buf).unwrap_err();
    assert_eq!(err, FormatError::InvalidCharacterSet(2));
}

#[test]
fn test_error_invalid_reference_type() {
    let buf = Datatype::build_header(CLASS_ID_REFERENCE, 1, [5, 0, 0], 8);
    let err = Datatype::parse(&buf).unwrap_err();
    assert_eq!(err, FormatError::InvalidReferenceType(5));
}

#[test]
fn serialize_parse_compound_roundtrip() {
    let dt = Datatype::Compound {
        size: 20,
        members: vec![
            CompoundMember {
                name: "x".to_string(),
                byte_offset: 0,
                datatype: Datatype::f64_le(),
            },
            CompoundMember {
                name: "y".to_string(),
                byte_offset: 8,
                datatype: Datatype::f64_le(),
            },
            CompoundMember {
                name: "id".to_string(),
                byte_offset: 16,
                datatype: Datatype::i32_le(),
            },
        ],
    };
    let bytes = dt.serialize();
    let (parsed, _) = Datatype::parse(&bytes).unwrap();
    assert_eq!(parsed, dt);
}

#[test]
fn serialize_parse_enum_roundtrip() {
    let dt = Datatype::Enumeration {
        size: 4,
        base_type: Box::new(Datatype::i32_le()),
        members: vec![
            EnumMember {
                name: "RED".to_string(),
                value: 0i32.to_le_bytes().to_vec(),
            },
            EnumMember {
                name: "GREEN".to_string(),
                value: 1i32.to_le_bytes().to_vec(),
            },
            EnumMember {
                name: "BLUE".to_string(),
                value: 2i32.to_le_bytes().to_vec(),
            },
        ],
    };
    let bytes = dt.serialize();
    let (parsed, _) = Datatype::parse(&bytes).unwrap();
    assert_eq!(parsed, dt);
}

#[test]
fn serialize_parse_array_roundtrip() {
    let dt = Datatype::Array {
        base_type: Box::new(Datatype::f64_le()),
        dimensions: vec![3],
    };
    let bytes = dt.serialize();
    let (parsed, _) = Datatype::parse(&bytes).unwrap();
    assert_eq!(parsed, dt);
}

#[test]
fn test_type_size() {
    let dt = Datatype::i32_le();
    assert_eq!(dt.type_size(), 4);

    let dt = Datatype::Array {
        base_type: Box::new(Datatype::i32_le()),
        dimensions: vec![3, 4],
    };
    assert_eq!(dt.type_size(), 48);
}

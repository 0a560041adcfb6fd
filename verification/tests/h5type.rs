//! Tests of the mapping of structs to compound datatypes.

use rustyhdf5_format::datatype::{CompoundMember, Datatype};
use rustyhdf5_format::h5type::{
    element_scalar, field_scalar, from_bytes, hdf5_datatype, record_size, to_bytes, FieldType,
    RecordField, Scalar,
};

/// The fields of `struct { id: u32, pos: [f64; 2], on: bool, delta: i16 }`.
fn fields() -> Vec<RecordField> {
    vec![
        RecordField { name: "id".to_string(), kind: FieldType::Single(Scalar::U32) },
        RecordField { name: "pos".to_string(), kind: FieldType::Array(Scalar::F64, 2) },
        RecordField { name: "on".to_string(), kind: FieldType::Single(Scalar::Bool) },
        RecordField { name: "delta".to_string(), kind: FieldType::Single(Scalar::I16) },
    ]
}

#[test]
fn names_of_field_types() {
    assert_eq!(field_scalar("f64"), Ok(Scalar::F64));
    assert_eq!(field_scalar("f32"), Ok(Scalar::F32));
    assert_eq!(field_scalar("i8"), Ok(Scalar::I8));
    assert_eq!(field_scalar("u64"), Ok(Scalar::U64));
    assert_eq!(field_scalar("bool"), Ok(Scalar::Bool));
    assert_eq!(
        field_scalar("String"),
        Err("unsupported type `String` for H5Type derive".to_string())
    );
}

#[test]
fn names_of_element_types() {
    assert_eq!(element_scalar("i16"), Ok(Scalar::I16));
    assert_eq!(
        element_scalar("bool"),
        Err("unsupported array element type `bool` for H5Type derive".to_string())
    );
}

#[test]
fn record_datatype() {
    assert_eq!(record_size(&fields()), 23);
    assert_eq!(
        hdf5_datatype(&fields()),
        Datatype::Compound {
            size: 23,
            members: vec![
                CompoundMember {
                    name: "id".to_string(),
                    byte_offset: 0,
                    datatype: Datatype::u32_le(),
                },
                CompoundMember {
                    name: "pos".to_string(),
                    byte_offset: 4,
                    datatype: Datatype::Array {
                        base_type: Box::new(Datatype::f64_le()),
                        dimensions: vec![2],
                    },
                },
                CompoundMember {
                    name: "on".to_string(),
                    byte_offset: 20,
                    datatype: Datatype::u8_le(),
                },
                CompoundMember {
                    name: "delta".to_string(),
                    byte_offset: 21,
                    datatype: Datatype::i16_le(),
                },
            ],
        }
    );
}

#[test]
fn record_bytes_and_back() {
    let words =
        [7u64, 1.5f64.to_bits(), (-2.0f64).to_bits(), 1, (-3i16) as u16 as u64];
    let bytes = to_bytes(&fields(), &words);
    assert_eq!(bytes.len(), 23);
    assert_eq!(bytes[..4], 7u32.to_le_bytes());
    assert_eq!(bytes[4..12], 1.5f64.to_le_bytes());
    assert_eq!(bytes[12..20], (-2.0f64).to_le_bytes());
    assert_eq!(bytes[20], 1);
    assert_eq!(bytes[21..], (-3i16).to_le_bytes());
    assert_eq!(from_bytes(&fields(), &bytes), words.to_vec());
}

#[test]
fn every_byte_but_zero_is_true() {
    let fields = [RecordField { name: "on".to_string(), kind: FieldType::Single(Scalar::Bool) }];
    assert_eq!(from_bytes(&fields, &[0]), vec![0]);
    assert_eq!(from_bytes(&fields, &[200]), vec![1]);
}

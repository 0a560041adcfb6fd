//! Tests of the module `data_read`.

use rustyhdf5_format::data_layout::DataLayout;
use rustyhdf5_format::data_read::{
    Number, numbers_for_f32, numbers_for_f64, read_array_flat, read_as_i32, read_as_i64,
    read_as_strings, read_as_u64, read_compound_field, read_compound_fields, read_enum_names,
    read_object_references, read_raw_data, read_raw_data_zerocopy, read_region_references,
};
use rustyhdf5_format::dataspace::{Dataspace, DataspaceType};
use rustyhdf5_format::datatype::{
    CharacterSet, CompoundMember, Datatype, EnumMember, ReferenceType, StringPadding,
};
use rustyhdf5_format::error::FormatError;

/// The value of a number as an `f64`.
fn to_f64(n: &Number) -> f64 {
    match *n {
        Number::Single(bits) => f32::from_bits(bits) as f64,
        Number::Double(bits) => f64::from_bits(bits),
        Number::Signed(v) => v as f64,
        Number::Unsigned(v) => v as f64,
    }
}

fn read_as_f64(raw: &[u8], datatype: &Datatype) -> Result<Vec<f64>, FormatError> {
    Ok(numbers_for_f64(raw, datatype)?.iter().map(to_f64).collect())
}

fn read_as_f32(raw: &[u8], datatype: &Datatype) -> Result<Vec<f32>, FormatError> {
    Ok(numbers_for_f32(raw, datatype)?.iter().map(|n| to_f64(n) as f32).collect())
}

fn make_simple_dataspace(dims: &[u64]) -> Dataspace {
    Dataspace {
        space_type: DataspaceType::Simple,
        rank: dims.len() as u8,
        dimensions: dims.to_vec(),
        max_dimensions: None,
    }
}

#[test]
fn read_f64_compact() {
    let dt = Datatype::f64_le();
    let ds = make_simple_dataspace(&[3]);
    let mut data = Vec::new();
    data.extend_from_slice(&1.0f64.to_le_bytes());
    data.extend_from_slice(&2.0f64.to_le_bytes());
    data.extend_from_slice(&3.0f64.to_le_bytes());
    let layout = DataLayout::Compact { data: data.clone() };
    let raw = read_raw_data(&[], &layout, &ds, &dt).unwrap();
    assert_eq!(raw, data);
    let values = read_as_f64(&raw, &dt).unwrap();
    assert_eq!(values, vec![1.0, 2.0, 3.0]);
}

#[test]
fn read_i32_contiguous() {
    let dt = Datatype::i32_le();
    let ds = make_simple_dataspace(&[4]);
    let mut file_data = vec![0u8; 1024];
    let offset = 256usize;
    let vals: Vec<i32> = vec![10, -20, 30, -40];
    for (i, v) in vals.iter().enumerate() {
        let bytes = v.to_le_bytes();
        file_data[offset + i * 4..offset + i * 4 + 4].copy_from_slice(&bytes);
    }
    let layout = DataLayout::Contiguous {
        address: Some(offset as u64),
        size: 16,
    };
    let raw = read_raw_data(&file_data, &layout, &ds, &dt).unwrap();
    let result = read_as_i32(&raw, &dt).unwrap();
    assert_eq!(result, vec![10, -20, 30, -40]);
}

#[test]
fn read_u8_data() {
    let dt = Datatype::u8_le();
    let ds = make_simple_dataspace(&[5]);
    let data = vec![10u8, 20, 30, 40, 50];
    let layout = DataLayout::Compact { data: data.clone() };
    let raw = read_raw_data(&[], &layout, &ds, &dt).unwrap();
    let result = read_as_u64(&raw, &dt).unwrap();
    assert_eq!(result, vec![10, 20, 30, 40, 50]);
}

#[test]
fn read_f32_be() {
    let dt = Datatype::f32_be();
    let ds = make_simple_dataspace(&[2]);
    let mut data = Vec::new();
    // Store as big-endian
    data.extend_from_slice(&1.5f32.to_be_bytes());
    data.extend_from_slice(&2.5f32.to_be_bytes());
    let layout = DataLayout::Compact { data: data.clone() };
    let raw = read_raw_data(&[], &layout, &ds, &dt).unwrap();
    let result = read_as_f32(&raw, &dt).unwrap();
    assert_eq!(result, vec![1.5, 2.5]);
}

#[test]
fn read_i16_le() {
    let dt = Datatype::i16_le();
    let ds = make_simple_dataspace(&[3]);
    let mut data = Vec::new();
    data.extend_from_slice(&(-100i16).to_le_bytes());
    data.extend_from_slice(&200i16.to_le_bytes());
    data.extend_from_slice(&(-300i16).to_le_bytes());
    let layout = DataLayout::Compact { data: data.clone() };
    let raw = read_raw_data(&[], &layout, &ds, &dt).unwrap();
    let result = read_as_i64(&raw, &dt).unwrap();
    assert_eq!(result, vec![-100, 200, -300]);
}

#[test]
fn read_strings_compact() {
    let dt = Datatype::String {
        size: 5,
        padding: StringPadding::NullPad,
        charset: CharacterSet::Ascii,
    };
    let ds = make_simple_dataspace(&[2]);
    let mut data = Vec::new();
    data.extend_from_slice(b"hello");
    data.extend_from_slice(b"hi\0\0\0");
    let layout = DataLayout::Compact { data: data.clone() };
    let raw = read_raw_data(&[], &layout, &ds, &dt).unwrap();
    let result = read_as_strings(&raw, &dt).unwrap();
    assert_eq!(result, vec!["hello", "hi"]);
}

#[test]
fn type_mismatch_f64_on_string() {
    let dt = Datatype::String {
        size: 4,
        padding: StringPadding::NullTerminate,
        charset: CharacterSet::Ascii,
    };
    let raw = vec![0u8; 8];
    let err = read_as_f64(&raw, &dt).unwrap_err();
    assert!(matches!(err, FormatError::TypeMismatch { .. }));
}

#[test]
fn size_mismatch_compact() {
    let dt = Datatype::f64_le();
    let ds = make_simple_dataspace(&[3]);
    let data = vec![0u8; 16]; // wrong: should be 24
    let layout = DataLayout::Compact { data };
    let err = read_raw_data(&[], &layout, &ds, &dt).unwrap_err();
    assert!(matches!(err, FormatError::DataSizeMismatch { .. }));
}

#[test]
fn no_data_allocated() {
    let dt = Datatype::f64_le();
    let ds = make_simple_dataspace(&[3]);
    let layout = DataLayout::Contiguous {
        address: None,
        size: 24,
    };
    let err = read_raw_data(&[], &layout, &ds, &dt).unwrap_err();
    assert!(matches!(err, FormatError::NoDataAllocated));
}

#[test]
fn string_type_mismatch_on_read_as_strings() {
    let dt = Datatype::i32_le();
    let raw = vec![0u8; 8];
    let err = read_as_strings(&raw, &dt).unwrap_err();
    assert!(matches!(err, FormatError::TypeMismatch { .. }));
}

#[test]
fn read_f64_from_i32() {
    // read_as_f64 should work on FixedPoint types too
    let dt = Datatype::i32_le();
    let mut raw = Vec::new();
    raw.extend_from_slice(&42i32.to_le_bytes());
    raw.extend_from_slice(&(-7i32).to_le_bytes());
    let result = read_as_f64(&raw, &dt).unwrap();
    assert_eq!(result, vec![42.0, -7.0]);
}

#[test]
fn read_strings_space_padded() {
    let dt = Datatype::String {
        size: 8,
        padding: StringPadding::SpacePad,
        charset: CharacterSet::Ascii,
    };
    let raw = b"hello   world   ";
    let result = read_as_strings(raw, &dt).unwrap();
    assert_eq!(result, vec!["hello", "world"]);
}

#[test]
fn read_strings_null_terminated() {
    let dt = Datatype::String {
        size: 6,
        padding: StringPadding::NullTerminate,
        charset: CharacterSet::Ascii,
    };
    let raw = b"abc\0\0\0de\0\0\0\0";
    let result = read_as_strings(raw, &dt).unwrap();
    assert_eq!(result, vec!["abc", "de"]);
}

#[test]
fn read_compound_two_fields() {
    // Compound: { x: f64, id: i32 } => size = 12
    let dt = Datatype::Compound {
        size: 12,
        members: vec![
            CompoundMember {
                name: "x".to_string(),
                byte_offset: 0,
                datatype: Datatype::f64_le(),
            },
            CompoundMember {
                name: "id".to_string(),
                byte_offset: 8,
                datatype: Datatype::i32_le(),
            },
        ],
    };
    // Two elements
    let mut raw = Vec::new();
    raw.extend_from_slice(&1.5f64.to_le_bytes());
    raw.extend_from_slice(&10i32.to_le_bytes());
    raw.extend_from_slice(&2.5f64.to_le_bytes());
    raw.extend_from_slice(&20i32.to_le_bytes());

    let fields = read_compound_fields(&raw, &dt).unwrap();
    assert_eq!(fields.len(), 2);
    assert_eq!(fields[0].name, "x");
    let x_vals = read_as_f64(&fields[0].raw_data, &fields[0].datatype).unwrap();
    assert_eq!(x_vals, vec![1.5, 2.5]);

    assert_eq!(fields[1].name, "id");
    let id_vals = read_as_i32(&fields[1].raw_data, &fields[1].datatype).unwrap();
    assert_eq!(id_vals, vec![10, 20]);
}

#[test]
fn read_compound_single_field_by_name() {
    let dt = Datatype::Compound {
        size: 12,
        members: vec![
            CompoundMember {
                name: "x".to_string(),
                byte_offset: 0,
                datatype: Datatype::f64_le(),
            },
            CompoundMember {
                name: "id".to_string(),
                byte_offset: 8,
                datatype: Datatype::i32_le(),
            },
        ],
    };
    let mut raw = Vec::new();
    raw.extend_from_slice(&3.14f64.to_le_bytes());
    raw.extend_from_slice(&42i32.to_le_bytes());

    let field = read_compound_field(&raw, &dt, "id").unwrap();
    let vals = read_as_i32(&field.raw_data, &field.datatype).unwrap();
    assert_eq!(vals, vec![42]);

    // Non-existent field
    let err = read_compound_field(&raw, &dt, "missing").unwrap_err();
    assert!(matches!(err, FormatError::PathNotFound(_)));
}

#[test]
fn read_enum_values_basic() {
    let dt = Datatype::Enumeration {
        size: 4,
        base_type: Box::new(Datatype::i32_le()),
        members: vec![
            EnumMember {
                name: "RED".to_string(),
                value: 0i32.to_le_bytes().to_vec(),
            },
            EnumMember {
                name: "GREEN".to_string(),
                value: 1i32.to_le_bytes().to_vec(),
            },
            EnumMember {
                name: "BLUE".to_string(),
                value: 2i32.to_le_bytes().to_vec(),
            },
        ],
    };
    let mut raw = Vec::new();
    raw.extend_from_slice(&1i32.to_le_bytes()); // GREEN
    raw.extend_from_slice(&0i32.to_le_bytes()); // RED
    raw.extend_from_slice(&2i32.to_le_bytes()); // BLUE
    raw.extend_from_slice(&99i32.to_le_bytes()); // unknown

    let names = read_enum_names(&raw, &dt).unwrap();
    assert_eq!(names[0], "GREEN");
    assert_eq!(names[1], "RED");
    assert_eq!(names[2], "BLUE");
    assert!(names[3].starts_with("UNKNOWN("));
}

#[test]
fn read_array_flat_basic() {
    // Array[3] of f64
    let dt = Datatype::Array {
        base_type: Box::new(Datatype::f64_le()),
        dimensions: vec![3],
    };
    let mut raw = Vec::new();
    for v in &[1.0f64, 2.0, 3.0] {
        raw.extend_from_slice(&v.to_le_bytes());
    }
    let (data, base_dt, dims) = read_array_flat(&raw, &dt).unwrap();
    assert_eq!(dims, vec![3]);
    let vals = read_as_f64(&data, &base_dt).unwrap();
    assert_eq!(vals, vec![1.0, 2.0, 3.0]);
}

#[test]
fn read_object_references_basic() {
    let dt = Datatype::Reference {
        size: 8,
        ref_type: ReferenceType::Object,
    };
    let mut raw = Vec::new();
    raw.extend_from_slice(&1024u64.to_le_bytes()); // valid ref
    raw.extend_from_slice(&u64::MAX.to_le_bytes()); // null ref
    raw.extend_from_slice(&2048u64.to_le_bytes()); // valid ref

    let refs = read_object_references(&raw, &dt, 8).unwrap();
    assert_eq!(refs.len(), 3);
    assert_eq!(refs[0].address, 1024);
    assert!(!refs[0].is_null());
    assert!(refs[1].is_null());
    assert_eq!(refs[2].address, 2048);
}

#[test]
fn read_object_references_4byte_offset() {
    let dt = Datatype::Reference {
        size: 4,
        ref_type: ReferenceType::Object,
    };
    let mut raw = Vec::new();
    raw.extend_from_slice(&512u32.to_le_bytes());
    raw.extend_from_slice(&u32::MAX.to_le_bytes()); // null ref

    let refs = read_object_references(&raw, &dt, 4).unwrap();
    assert_eq!(refs.len(), 2);
    assert_eq!(refs[0].address, 512);
    assert!(refs[1].is_null());
}

#[test]
fn read_object_references_type_mismatch() {
    let dt = Datatype::f64_le();
    let raw = vec![0u8; 8];
    let err = read_object_references(&raw, &dt, 8).unwrap_err();
    assert!(matches!(err, FormatError::TypeMismatch { .. }));
}

#[test]
fn read_region_references_basic() {
    let dt = Datatype::Reference {
        size: 12,
        ref_type: ReferenceType::DatasetRegion,
    };
    let raw = vec![0xABu8; 24]; // two 12-byte region refs

    let refs = read_region_references(&raw, &dt).unwrap();
    assert_eq!(refs.len(), 2);
    assert_eq!(refs[0].raw.len(), 12);
    assert_eq!(refs[1].raw.len(), 12);
}

#[test]
fn read_region_references_type_mismatch() {
    let dt = Datatype::i32_le();
    let raw = vec![0u8; 12];
    let err = read_region_references(&raw, &dt).unwrap_err();
    assert!(matches!(err, FormatError::TypeMismatch { .. }));
}

#[test]
fn zerocopy_contiguous_returns_slice_into_file_data() {
    let dt = Datatype::f64_le();
    let ds = make_simple_dataspace(&[3]);
    let mut file_data = vec![0u8; 1024];
    let offset = 256usize;
    let vals = [1.0f64, 2.0, 3.0];
    for (i, v) in vals.iter().enumerate() {
        file_data[offset + i * 8..offset + i * 8 + 8].copy_from_slice(&v.to_le_bytes());
    }
    let layout = DataLayout::Contiguous {
        address: Some(offset as u64),
        size: 24,
    };
    let result = read_raw_data_zerocopy(&file_data, &layout, &ds, &dt).unwrap();
    let slice = result.expect("contiguous should return Some");
    // Pointer identity: the slice must point into file_data, not a copy
    let file_range = file_data.as_ptr_range();
    assert!(file_range.contains(&slice.as_ptr()));
    assert_eq!(slice.len(), 24);
    // Verify the actual data
    let values = read_as_f64(slice, &dt).unwrap();
    assert_eq!(values, vec![1.0, 2.0, 3.0]);
}

#[test]
fn zerocopy_compact_returns_none() {
    let dt = Datatype::f64_le();
    let ds = make_simple_dataspace(&[1]);
    let data = vec![0u8; 8];
    let layout = DataLayout::Compact { data };
    let result = read_raw_data_zerocopy(&[], &layout, &ds, &dt).unwrap();
    assert!(result.is_none());
}

#[test]
fn zerocopy_no_data_allocated() {
    let dt = Datatype::f64_le();
    let ds = make_simple_dataspace(&[1]);
    let layout = DataLayout::Contiguous {
        address: None,
        size: 8,
    };
    let err = read_raw_data_zerocopy(&[], &layout, &ds, &dt).unwrap_err();
    assert!(matches!(err, FormatError::NoDataAllocated));
}

#[test]
fn zerocopy_size_mismatch() {
    let dt = Datatype::f64_le();
    let ds = make_simple_dataspace(&[3]);
    let file_data = vec![0u8; 1024];
    let layout = DataLayout::Contiguous {
        address: Some(0),
        size: 16, // wrong: should be 24
    };
    let err = read_raw_data_zerocopy(&file_data, &layout, &ds, &dt).unwrap_err();
    assert!(matches!(err, FormatError::DataSizeMismatch { .. }));
}

//! Tests of the module `dataspace`.

use rustyhdf5_format::dataspace::{Dataspace, DataspaceType};
use rustyhdf5_format::error::FormatError;

fn build_v1_dataspace(rank: u8, flags: u8, dims: &[u64], max_dims: Option<&[u64]>) -> Vec<u8> {
    let length_size = 8u8;
    let mut buf = Vec::new();
    buf.push(1); // version
    buf.push(rank);
    buf.push(flags);
    buf.push(0); // reserved
    buf.extend_from_slice(&[0u8; 4]); // reserved(4)
    for &d in dims {
        buf.extend_from_slice(&d.to_le_bytes());
    }
    if let Some(md) = max_dims {
        for &d in md {
            buf.extend_from_slice(&d.to_le_bytes());
        }
    }
    let _ = length_size;
    buf
}

fn build_v2_dataspace(
    rank: u8,
    flags: u8,
    type_byte: u8,
    dims: &[u64],
    max_dims: Option<&[u64]>,
) -> Vec<u8> {
    let mut buf = Vec::new();
    buf.push(2); // version
    buf.push(rank);
    buf.push(flags);
    buf.push(type_byte);
    for &d in dims {
        buf.extend_from_slice(&d.to_le_bytes());
    }
    if let Some(md) = max_dims {
        for &d in md {
            buf.extend_from_slice(&d.to_le_bytes());
        }
    }
    buf
}

#[test]
fn scalar_v1() {
    let data = build_v1_dataspace(0, 0, &[], None);
    let ds = Dataspace::parse(&data, 8).unwrap();
    assert_eq!(ds.space_type, DataspaceType::Scalar);
    assert_eq!(ds.rank, 0);
    assert!(ds.dimensions.is_empty());
    assert!(ds.max_dimensions.is_none());
    assert_eq!(ds.num_elements(), 1);
}

#[test]
fn null_v2() {
    let data = build_v2_dataspace(0, 0, 2, &[], None);
    let ds = Dataspace::parse(&data, 8).unwrap();
    assert_eq!(ds.space_type, DataspaceType::Null);
    assert_eq!(ds.num_elements(), 0);
}

#[test]
fn simple_1d() {
    let data = build_v1_dataspace(1, 0, &[5], None);
    let ds = Dataspace::parse(&data, 8).unwrap();
    assert_eq!(ds.space_type, DataspaceType::Simple);
    assert_eq!(ds.rank, 1);
    assert_eq!(ds.dimensions, vec![5]);
    assert!(ds.max_dimensions.is_none());
    assert_eq!(ds.num_elements(), 5);
}

#[test]
fn simple_2d() {
    let data = build_v1_dataspace(2, 0, &[3, 4], None);
    let ds = Dataspace::parse(&data, 8).unwrap();
    assert_eq!(ds.rank, 2);
    assert_eq!(ds.dimensions, vec![3, 4]);
    assert_eq!(ds.num_elements(), 12);
}

#[test]
fn simple_3d_with_max_dims_unlimited() {
    let data = build_v1_dataspace(3, 0x01, &[2, 3, 4], Some(&[10, u64::MAX, 100]));
    let ds = Dataspace::parse(&data, 8).unwrap();
    assert_eq!(ds.rank, 3);
    assert_eq!(ds.dimensions, vec![2, 3, 4]);
    let md = ds.max_dimensions.clone().unwrap();
    assert_eq!(md, vec![10, u64::MAX, 100]);
    assert_eq!(ds.num_elements(), 24);
}

#[test]
fn v2_simple() {
    let data = build_v2_dataspace(1, 0, 1, &[7], None);
    let ds = Dataspace::parse(&data, 8).unwrap();
    assert_eq!(ds.space_type, DataspaceType::Simple);
    assert_eq!(ds.dimensions, vec![7]);
}

#[test]
fn v2_scalar() {
    let data = build_v2_dataspace(0, 0, 0, &[], None);
    let ds = Dataspace::parse(&data, 8).unwrap();
    assert_eq!(ds.space_type, DataspaceType::Scalar);
    assert_eq!(ds.num_elements(), 1);
}

#[test]
fn v1_with_4byte_length() {
    let mut buf = Vec::new();
    buf.push(1); // version
    buf.push(1); // rank
    buf.push(0); // flags
    buf.push(0); // reserved
    buf.extend_from_slice(&[0u8; 4]); // reserved(4)
    buf.extend_from_slice(&10u32.to_le_bytes()); // dim with length_size=4
    let ds = Dataspace::parse(&buf, 4).unwrap();
    assert_eq!(ds.dimensions, vec![10]);
}

#[test]
fn truncated_data_error() {
    let data = [1u8, 2]; // too short
    let err = Dataspace::parse(&data, 8).unwrap_err();
    assert!(matches!(err, FormatError::UnexpectedEof { .. }));
}

#[test]
fn dataspace_invalid_version_error() {
    let data = [5u8, 0, 0, 0, 0, 0, 0, 0];
    let err = Dataspace::parse(&data, 8).unwrap_err();
    assert_eq!(err, FormatError::InvalidDataspaceVersion(5));
}

#[test]
fn invalid_v2_type_error() {
    let data = build_v2_dataspace(0, 0, 5, &[], None);
    let err = Dataspace::parse(&data, 8).unwrap_err();
    assert_eq!(err, FormatError::InvalidDataspaceType(5));
}

#[test]
fn v1_with_max_dims() {
    let data = build_v1_dataspace(1, 0x01, &[5], Some(&[10]));
    let ds = Dataspace::parse(&data, 8).unwrap();
    assert_eq!(ds.max_dimensions, Some(vec![10]));
}

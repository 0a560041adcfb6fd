//! Tests of the module `attribute_info`.

use rustyhdf5_format::attribute_info::AttributeInfoMessage;
use rustyhdf5_format::error::FormatError;

#[test]
fn parse_compact_storage() {
    // version=0, flags=0, fractal_heap=undef, btree=undef
    let mut data = vec![0u8; 2 + 8 + 8];
    data[0] = 0; // version
    data[1] = 0; // flags
    data[2..10].copy_from_slice(&0xFFFF_FFFF_FFFF_FFFFu64.to_le_bytes());
    data[10..18].copy_from_slice(&0xFFFF_FFFF_FFFF_FFFFu64.to_le_bytes());

    let msg = AttributeInfoMessage::parse(&data, 8).unwrap();
    assert_eq!(msg.fractal_heap_address, None);
    assert_eq!(msg.btree_name_index_address, None);
    assert_eq!(msg.max_creation_index, None);
    assert_eq!(msg.btree_creation_order_address, None);
}

#[test]
fn parse_dense_storage() {
    let mut data = Vec::new();
    data.push(0); // version
    data.push(0x00); // flags: no creation order
    data.extend_from_slice(&0x1000u64.to_le_bytes()); // fractal heap
    data.extend_from_slice(&0x2000u64.to_le_bytes()); // btree name

    let msg = AttributeInfoMessage::parse(&data, 8).unwrap();
    assert_eq!(msg.fractal_heap_address, Some(0x1000));
    assert_eq!(msg.btree_name_index_address, Some(0x2000));
    assert_eq!(msg.max_creation_index, None);
    assert_eq!(msg.btree_creation_order_address, None);
}

#[test]
fn parse_dense_with_creation_order() {
    let mut data = Vec::new();
    data.push(0); // version
    data.push(0x03); // flags: max_creation_index + creation_order_index
    data.extend_from_slice(&42u16.to_le_bytes()); // max_creation_index
    data.extend_from_slice(&0x1000u64.to_le_bytes()); // fractal heap
    data.extend_from_slice(&0x2000u64.to_le_bytes()); // btree name
    data.extend_from_slice(&0x3000u64.to_le_bytes()); // btree creation order

    let msg = AttributeInfoMessage::parse(&data, 8).unwrap();
    assert_eq!(msg.max_creation_index, Some(42));
    assert_eq!(msg.fractal_heap_address, Some(0x1000));
    assert_eq!(msg.btree_name_index_address, Some(0x2000));
    assert_eq!(msg.btree_creation_order_address, Some(0x3000));
}

#[test]
fn attribute_info_parse_four_byte_offsets() {
    let mut data = Vec::new();
    data.push(0); // version
    data.push(0x00); // flags
    data.extend_from_slice(&0x100u32.to_le_bytes()); // fractal heap
    data.extend_from_slice(&0x200u32.to_le_bytes()); // btree name

    let msg = AttributeInfoMessage::parse(&data, 4).unwrap();
    assert_eq!(msg.fractal_heap_address, Some(0x100));
    assert_eq!(msg.btree_name_index_address, Some(0x200));
}

#[test]
fn attribute_info_invalid_version() {
    let data = vec![1, 0, 0, 0];
    let err = AttributeInfoMessage::parse(&data, 8).unwrap_err();
    assert_eq!(err, FormatError::InvalidAttributeInfoVersion(1));
}

#[test]
fn attribute_info_truncated_data() {
    let data = vec![0u8]; // too short
    let err = AttributeInfoMessage::parse(&data, 8).unwrap_err();
    assert!(matches!(err, FormatError::UnexpectedEof { .. }));
}

#[test]
fn undefined_addresses_four_byte() {
    let mut data = Vec::new();
    data.push(0); // version
    data.push(0x00); // flags
    data.extend_from_slice(&0xFFFF_FFFFu32.to_le_bytes()); // fractal heap undef
    data.extend_from_slice(&0xFFFF_FFFFu32.to_le_bytes()); // btree undef

    let msg = AttributeInfoMessage::parse(&data, 4).unwrap();
    assert_eq!(msg.fractal_heap_address, None);
    assert_eq!(msg.btree_name_index_address, None);
}

//! Tests of the module `link_info`.

use rustyhdf5_format::error::FormatError;
use rustyhdf5_format::link_info::LinkInfoMessage;

#[test]
fn compact_storage() {
    // version=0, flags=0, fractal_heap=undef, btree=undef
    let mut data = vec![0u8; 2 + 8 + 8];
    data[0] = 0; // version
    data[1] = 0; // flags
    // fractal heap address = undefined
    data[2..10].copy_from_slice(&0xFFFF_FFFF_FFFF_FFFFu64.to_le_bytes());
    // btree name index = undefined
    data[10..18].copy_from_slice(&0xFFFF_FFFF_FFFF_FFFFu64.to_le_bytes());

    let msg = LinkInfoMessage::parse(&data, 8).unwrap();
    assert_eq!(msg.fractal_heap_address, None);
    assert_eq!(msg.btree_name_index_address, None);
    assert_eq!(msg.max_creation_order, None);
    assert_eq!(msg.btree_creation_order_address, None);
}

#[test]
fn dense_storage_with_creation_order() {
    // flags: bit 0 (max creation order) + bit 1 (creation order index)
    let mut data = Vec::new();
    data.push(0); // version
    data.push(0x03); // flags
    data.extend_from_slice(&42u64.to_le_bytes()); // max_creation_order
    data.extend_from_slice(&0x1000u64.to_le_bytes()); // fractal heap
    data.extend_from_slice(&0x2000u64.to_le_bytes()); // btree name
    data.extend_from_slice(&0x3000u64.to_le_bytes()); // btree creation order

    let msg = LinkInfoMessage::parse(&data, 8).unwrap();
    assert_eq!(msg.max_creation_order, Some(42));
    assert_eq!(msg.fractal_heap_address, Some(0x1000));
    assert_eq!(msg.btree_name_index_address, Some(0x2000));
    assert_eq!(msg.btree_creation_order_address, Some(0x3000));
}

#[test]
fn no_creation_order_tracking() {
    let mut data = Vec::new();
    data.push(0); // version
    data.push(0x00); // flags: nothing
    data.extend_from_slice(&0x500u64.to_le_bytes()); // fractal heap
    data.extend_from_slice(&0x600u64.to_le_bytes()); // btree name

    let msg = LinkInfoMessage::parse(&data, 8).unwrap();
    assert_eq!(msg.max_creation_order, None);
    assert_eq!(msg.fractal_heap_address, Some(0x500));
    assert_eq!(msg.btree_name_index_address, Some(0x600));
    assert_eq!(msg.btree_creation_order_address, None);
}

#[test]
fn link_info_invalid_version() {
    let data = vec![1, 0, 0, 0];
    let err = LinkInfoMessage::parse(&data, 8).unwrap_err();
    assert_eq!(err, FormatError::InvalidLinkInfoVersion(1));
}

#[test]
fn four_byte_offsets() {
    let mut data = Vec::new();
    data.push(0); // version
    data.push(0x00); // flags
    data.extend_from_slice(&0x100u32.to_le_bytes()); // fractal heap
    data.extend_from_slice(&0x200u32.to_le_bytes()); // btree name

    let msg = LinkInfoMessage::parse(&data, 4).unwrap();
    assert_eq!(msg.fractal_heap_address, Some(0x100));
    assert_eq!(msg.btree_name_index_address, Some(0x200));
}

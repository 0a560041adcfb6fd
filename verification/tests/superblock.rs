//! Tests of the module `superblock`.

use rustyhdf5_format::error::FormatError;
use rustyhdf5_format::signature::HDF5_SIGNATURE;
use rustyhdf5_format::superblock::Superblock;

/// Helper to build a v0 superblock byte buffer with 8-byte offsets.
fn build_v0_bytes(offset_size: u8) -> Vec<u8> {
    let mut buf = Vec::new();
    buf.extend_from_slice(&HDF5_SIGNATURE); // 0..8
    buf.push(0); // version = 0
    buf.push(0); // free_space_version
    buf.push(0); // root_group_version
    buf.push(0); // reserved
    buf.push(0); // shared_header_version
    buf.push(offset_size); // offset_size
    buf.push(offset_size); // length_size (same for simplicity)
    buf.push(0); // reserved
    buf.extend_from_slice(&4u16.to_le_bytes()); // group_leaf_node_k
    buf.extend_from_slice(&16u16.to_le_bytes()); // group_internal_node_k
    buf.extend_from_slice(&0u32.to_le_bytes()); // consistency_flags
    // base_address
    write_offset(&mut buf, 0, offset_size);
    // free_space_address
    write_offset(&mut buf, 0xFFFFFFFFFFFFFFFF, offset_size);
    // eof_address
    write_offset(&mut buf, 4096, offset_size);
    // driver_info_address
    write_offset(&mut buf, 0xFFFFFFFFFFFFFFFF, offset_size);
    // Root symbol table entry
    write_offset(&mut buf, 0, offset_size); // link_name_offset
    write_offset(&mut buf, 96, offset_size); // object_header_addr (root group)
    buf.extend_from_slice(&0u32.to_le_bytes()); // cache_type
    buf.extend_from_slice(&0u32.to_le_bytes()); // reserved
    buf.extend_from_slice(&[0u8; 16]); // scratch pad
    buf
}

fn write_offset(buf: &mut Vec<u8>, val: u64, size: u8) {
    match size {
        2 => buf.extend_from_slice(&(val as u16).to_le_bytes()),
        4 => buf.extend_from_slice(&(val as u32).to_le_bytes()),
        8 => buf.extend_from_slice(&val.to_le_bytes()),
        _ => panic!("bad test offset size"),
    }
}

fn build_v1_bytes(offset_size: u8) -> Vec<u8> {
    let mut buf = Vec::new();
    buf.extend_from_slice(&HDF5_SIGNATURE);
    buf.push(1); // version
    buf.push(0); // free_space_version
    buf.push(0); // root_group_version
    buf.push(0); // reserved
    buf.push(0); // shared_header_version
    buf.push(offset_size);
    buf.push(offset_size);
    buf.push(0); // reserved
    buf.extend_from_slice(&4u16.to_le_bytes()); // group_leaf_node_k
    buf.extend_from_slice(&16u16.to_le_bytes()); // group_internal_node_k
    buf.extend_from_slice(&32u16.to_le_bytes()); // indexed_storage_internal_node_k
    buf.extend_from_slice(&0u16.to_le_bytes()); // reserved
    buf.extend_from_slice(&0u32.to_le_bytes()); // consistency_flags
    write_offset(&mut buf, 0, offset_size); // base
    write_offset(&mut buf, 0xFFFFFFFFFFFFFFFF, offset_size); // free space
    write_offset(&mut buf, 8192, offset_size); // eof
    write_offset(&mut buf, 0xFFFFFFFFFFFFFFFF, offset_size); // driver info
    // Root symbol table entry
    write_offset(&mut buf, 0, offset_size);
    write_offset(&mut buf, 200, offset_size); // root group addr
    buf.extend_from_slice(&0u32.to_le_bytes());
    buf.extend_from_slice(&0u32.to_le_bytes());
    buf.extend_from_slice(&[0u8; 16]);
    buf
}

fn build_v2_bytes(offset_size: u8, version: u8) -> Vec<u8> {
    let mut buf = Vec::new();
    buf.extend_from_slice(&HDF5_SIGNATURE);
    buf.push(version);
    buf.push(offset_size);
    buf.push(offset_size); // length_size
    buf.push(0); // consistency_flags
    write_offset(&mut buf, 0, offset_size); // base_address
    write_offset(&mut buf, 0xFFFFFFFFFFFFFFFF, offset_size); // superblock ext
    write_offset(&mut buf, 2048, offset_size); // eof
    write_offset(&mut buf, 48, offset_size); // root group obj hdr

    // Compute CRC32C of everything so far
    let checksum = rustyhdf5_format::checksum::jenkins_lookup3(&buf);
    buf.extend_from_slice(&checksum.to_le_bytes());
    buf
}

#[test]
fn parse_v0_8byte_offsets() {
    let data = build_v0_bytes(8);
    let sb = Superblock::parse(&data, 0).unwrap();
    assert_eq!(sb.version, 0);
    assert_eq!(sb.offset_size, 8);
    assert_eq!(sb.base_address, 0);
    assert_eq!(sb.eof_address, 4096);
    assert_eq!(sb.root_group_address, 96);
    assert_eq!(sb.group_leaf_node_k, Some(4));
    assert_eq!(sb.group_internal_node_k, Some(16));
    assert_eq!(sb.indexed_storage_internal_node_k, None);
    assert_eq!(sb.free_space_address, Some(0xFFFFFFFFFFFFFFFF));
    assert_eq!(sb.driver_info_address, Some(0xFFFFFFFFFFFFFFFF));
    assert_eq!(sb.checksum, None);
}

#[test]
fn parse_v0_4byte_offsets() {
    let data = build_v0_bytes(4);
    let sb = Superblock::parse(&data, 0).unwrap();
    assert_eq!(sb.version, 0);
    assert_eq!(sb.offset_size, 4);
    assert_eq!(sb.eof_address, 4096);
    assert_eq!(sb.root_group_address, 96);
}

#[test]
fn parse_v1_8byte_offsets() {
    let data = build_v1_bytes(8);
    let sb = Superblock::parse(&data, 0).unwrap();
    assert_eq!(sb.version, 1);
    assert_eq!(sb.offset_size, 8);
    assert_eq!(sb.eof_address, 8192);
    assert_eq!(sb.root_group_address, 200);
    assert_eq!(sb.indexed_storage_internal_node_k, Some(32));
    assert_eq!(sb.group_leaf_node_k, Some(4));
}

#[test]
fn parse_v1_4byte_offsets() {
    let data = build_v1_bytes(4);
    let sb = Superblock::parse(&data, 0).unwrap();
    assert_eq!(sb.version, 1);
    assert_eq!(sb.offset_size, 4);
}

#[test]
fn parse_v2_8byte_offsets() {
    let data = build_v2_bytes(8, 2);
    let sb = Superblock::parse(&data, 0).unwrap();
    assert_eq!(sb.version, 2);
    assert_eq!(sb.offset_size, 8);
    assert_eq!(sb.eof_address, 2048);
    assert_eq!(sb.root_group_address, 48);
    assert!(sb.checksum.is_some());
    assert_eq!(sb.group_leaf_node_k, None);
}

#[test]
fn parse_v2_4byte_offsets() {
    let data = build_v2_bytes(4, 2);
    let sb = Superblock::parse(&data, 0).unwrap();
    assert_eq!(sb.version, 2);
    assert_eq!(sb.offset_size, 4);
}

#[test]
fn parse_v3() {
    let data = build_v2_bytes(8, 3);
    let sb = Superblock::parse(&data, 0).unwrap();
    assert_eq!(sb.version, 3);
}

#[test]
fn checksum_mismatch_v2() {
    let mut data = build_v2_bytes(8, 2);
    // Corrupt the checksum
    let len = data.len();
    data[len - 1] ^= 0xFF;
    let err = Superblock::parse(&data, 0).unwrap_err();
    matches!(err, FormatError::ChecksumMismatch { .. });
}

#[test]
fn unsupported_version() {
    let mut data = vec![0u8; 64];
    data[..8].copy_from_slice(&HDF5_SIGNATURE);
    data[8] = 99;
    assert_eq!(
        Superblock::parse(&data, 0),
        Err(FormatError::UnsupportedVersion(99))
    );
}

#[test]
fn superblock_truncated_data() {
    let data = HDF5_SIGNATURE.to_vec(); // Just the signature, no version
    // Only 8 bytes, need at least 9
    assert!(matches!(
        Superblock::parse(&data, 0),
        Err(FormatError::UnexpectedEof { .. })
    ));
}

#[test]
fn truncated_v0() {
    let mut data = vec![0u8; 20]; // Too short for v0
    data[..8].copy_from_slice(&HDF5_SIGNATURE);
    data[8] = 0; // version 0
    data[13] = 8; // offset_size
    data[14] = 8; // length_size
    assert!(matches!(
        Superblock::parse(&data, 0),
        Err(FormatError::UnexpectedEof { .. })
    ));
}

#[test]
fn invalid_offset_size() {
    let mut data = vec![0u8; 64];
    data[..8].copy_from_slice(&HDF5_SIGNATURE);
    data[8] = 0; // version 0
    data[13] = 3; // invalid offset_size
    data[14] = 8;
    assert_eq!(
        Superblock::parse(&data, 0),
        Err(FormatError::InvalidOffsetSize(3))
    );
}

#[test]
fn invalid_length_size() {
    let mut data = vec![0u8; 64];
    data[..8].copy_from_slice(&HDF5_SIGNATURE);
    data[8] = 0;
    data[13] = 8;
    data[14] = 5; // invalid length_size
    assert_eq!(
        Superblock::parse(&data, 0),
        Err(FormatError::InvalidLengthSize(5))
    );
}

#[test]
fn parse_at_nonzero_offset() {
    let mut data = vec![0u8; 1024];
    let v0 = build_v0_bytes(8);
    data[512..512 + v0.len()].copy_from_slice(&v0);
    let sb = Superblock::parse(&data, 512).unwrap();
    assert_eq!(sb.version, 0);
    assert_eq!(sb.root_group_address, 96);
}

#[test]
fn v2_2byte_offsets() {
    let data = build_v2_bytes(2, 2);
    let sb = Superblock::parse(&data, 0).unwrap();
    assert_eq!(sb.offset_size, 2);
    assert_eq!(sb.eof_address, 2048);
}

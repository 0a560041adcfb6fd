//! Tests of the module `btree_v2`.

use rustyhdf5_format::btree_v2::{BTreeV2Header, collect_btree_v2_records};
use rustyhdf5_format::error::FormatError;

fn build_btree_v2_header(
    tree_type: u8,
    node_size: u32,
    record_size: u16,
    depth: u16,
    root_addr: u64,
    num_records_root: u16,
    total_records: u64,
    offset_size: u8,
    length_size: u8,
) -> Vec<u8> {
    let mut buf = Vec::new();
    buf.extend_from_slice(b"BTHD");
    buf.push(0); // version
    buf.push(tree_type);
    buf.extend_from_slice(&node_size.to_le_bytes());
    buf.extend_from_slice(&record_size.to_le_bytes());
    buf.extend_from_slice(&depth.to_le_bytes());
    buf.push(85); // split_percent
    buf.push(40); // merge_percent
    match offset_size {
        4 => buf.extend_from_slice(&(root_addr as u32).to_le_bytes()),
        8 => buf.extend_from_slice(&root_addr.to_le_bytes()),
        _ => {}
    }
    buf.extend_from_slice(&num_records_root.to_le_bytes());
    match length_size {
        4 => buf.extend_from_slice(&(total_records as u32).to_le_bytes()),
        8 => buf.extend_from_slice(&total_records.to_le_bytes()),
        _ => {}
    }
    let checksum = rustyhdf5_format::checksum::jenkins_lookup3(&buf);
    buf.extend_from_slice(&checksum.to_le_bytes());
    buf
}

fn build_leaf_node(tree_type: u8, records: &[&[u8]]) -> Vec<u8> {
    let mut buf = Vec::new();
    buf.extend_from_slice(b"BTLF");
    buf.push(0); // version
    buf.push(tree_type);
    for rec in records {
        buf.extend_from_slice(rec);
    }
    let checksum = rustyhdf5_format::checksum::jenkins_lookup3(&buf);
    buf.extend_from_slice(&checksum.to_le_bytes());
    buf
}

#[test]
fn parse_header() {
    let data = build_btree_v2_header(5, 512, 11, 0, 0x1000, 3, 3, 8, 8);
    let hdr = BTreeV2Header::parse(&data, 0, 8, 8).unwrap();
    assert_eq!(hdr.tree_type, 5);
    assert_eq!(hdr.node_size, 512);
    assert_eq!(hdr.record_size, 11);
    assert_eq!(hdr.depth, 0);
    assert_eq!(hdr.root_node_address, 0x1000);
    assert_eq!(hdr.num_records_in_root, 3);
    assert_eq!(hdr.total_records, 3);
}

#[test]
fn parse_leaf_with_2_records() {
    let rec1 = [1u8, 2, 3, 4, 5, 6, 7, 8, 9, 10, 11];
    let rec2 = [11u8, 12, 13, 14, 15, 16, 17, 18, 19, 20, 21];
    let leaf = build_leaf_node(5, &[&rec1, &rec2]);

    let leaf_offset = 256usize;
    let header = build_btree_v2_header(5, 512, 11, 0, leaf_offset as u64, 2, 2, 8, 8);

    let mut file_data = vec![0u8; 512];
    file_data[..header.len()].copy_from_slice(&header);
    file_data[leaf_offset..leaf_offset + leaf.len()].copy_from_slice(&leaf);

    let hdr = BTreeV2Header::parse(&file_data, 0, 8, 8).unwrap();
    let records = collect_btree_v2_records(&file_data, &hdr, 8, 8).unwrap();
    assert_eq!(records.len(), 2);
    assert_eq!(records[0].data, rec1.to_vec());
    assert_eq!(records[1].data, rec2.to_vec());
}

#[test]
fn btree_v2_invalid_signature() {
    let mut data = build_btree_v2_header(5, 512, 11, 0, 0, 0, 0, 8, 8);
    data[0] = b'X';
    let err = BTreeV2Header::parse(&data, 0, 8, 8).unwrap_err();
    assert_eq!(err, FormatError::InvalidBTreeV2Signature);
}

#[test]
fn btree_v2_invalid_version() {
    let mut data = build_btree_v2_header(5, 512, 11, 0, 0, 0, 0, 8, 8);
    data[4] = 1; // bad version
    let err = BTreeV2Header::parse(&data, 0, 8, 8).unwrap_err();
    assert_eq!(err, FormatError::InvalidBTreeV2Version(1));
}

#[test]
fn empty_tree() {
    let header = build_btree_v2_header(5, 512, 11, 0, 0, 0, 0, 8, 8);
    let hdr = BTreeV2Header::parse(&header, 0, 8, 8).unwrap();
    let records = collect_btree_v2_records(&header, &hdr, 8, 8).unwrap();
    assert!(records.is_empty());
}

//! Tests of the module `btree_v1`.

use rustyhdf5_format::btree_v1::{BTreeV1Node, collect_symbol_table_nodes};
use rustyhdf5_format::error::FormatError;

fn write_offset(buf: &mut Vec<u8>, val: u64, size: u8) {
    match size {
        4 => buf.extend_from_slice(&(val as u32).to_le_bytes()),
        8 => buf.extend_from_slice(&val.to_le_bytes()),
        _ => panic!("test"),
    }
}

fn build_btree_node(
    node_type: u8,
    level: u8,
    keys: &[u64],
    children: &[u64],
    left: Option<u64>,
    right: Option<u64>,
    offset_size: u8,
) -> Vec<u8> {
    assert_eq!(keys.len(), children.len() + 1);
    let entries_used = children.len() as u16;
    let mut buf = Vec::new();
    buf.extend_from_slice(b"TREE");
    buf.push(node_type);
    buf.push(level);
    buf.extend_from_slice(&entries_used.to_le_bytes());
    let undef: u64 = if offset_size == 4 { 0xFFFFFFFF } else { 0xFFFFFFFFFFFFFFFF };
    write_offset(&mut buf, left.unwrap_or(undef), offset_size);
    write_offset(&mut buf, right.unwrap_or(undef), offset_size);
    for i in 0..children.len() {
        write_offset(&mut buf, keys[i], offset_size);
        write_offset(&mut buf, children[i], offset_size);
    }
    write_offset(&mut buf, *keys.last().unwrap(), offset_size);
    buf
}

#[test]
fn parse_leaf_node() {
    let data = build_btree_node(0, 0, &[0, 5, 10], &[0x100, 0x200], None, None, 8);
    let node = BTreeV1Node::parse(&data, 0, 8, 8).unwrap();
    assert_eq!(node.node_type, 0);
    assert_eq!(node.node_level, 0);
    assert_eq!(node.entries_used, 2);
    assert_eq!(node.keys, vec![0, 5, 10]);
    assert_eq!(node.children, vec![0x100, 0x200]);
    assert_eq!(node.left_sibling, None);
    assert_eq!(node.right_sibling, None);
}

#[test]
fn parse_with_siblings_none() {
    let data = build_btree_node(0, 0, &[0, 8], &[0x300], None, None, 8);
    let node = BTreeV1Node::parse(&data, 0, 8, 8).unwrap();
    assert_eq!(node.left_sibling, None);
    assert_eq!(node.right_sibling, None);
}

#[test]
fn parse_internal_node_and_collect() {
    // Build a 2-level tree: one internal node pointing to two leaf nodes
    let os: u8 = 8;
    let leaf1_offset: usize = 0;
    let leaf2_offset: usize = 256;
    let internal_offset: usize = 512;

    let leaf1 = build_btree_node(0, 0, &[0, 5], &[0xA00], None, None, os);
    let leaf2 = build_btree_node(0, 0, &[5, 10], &[0xB00], None, None, os);
    let internal = build_btree_node(
        0, 1,
        &[0, 5, 10],
        &[leaf1_offset as u64, leaf2_offset as u64],
        None, None, os,
    );

    let mut file = vec![0u8; 1024];
    file[leaf1_offset..leaf1_offset + leaf1.len()].copy_from_slice(&leaf1);
    file[leaf2_offset..leaf2_offset + leaf2.len()].copy_from_slice(&leaf2);
    file[internal_offset..internal_offset + internal.len()].copy_from_slice(&internal);

    let snods = collect_symbol_table_nodes(&file, internal_offset as u64, os, os).unwrap();
    assert_eq!(snods, vec![0xA00, 0xB00]);
}

#[test]
fn btree_v1_invalid_signature() {
    let mut data = build_btree_node(0, 0, &[0, 1], &[0x100], None, None, 8);
    data[0] = b'X';
    let err = BTreeV1Node::parse(&data, 0, 8, 8).unwrap_err();
    assert_eq!(err, FormatError::InvalidBTreeSignature);
}

#[test]
fn collect_wrong_node_type() {
    let data = build_btree_node(1, 0, &[0, 1], &[0x100], None, None, 8);
    let mut file = vec![0u8; 512];
    file[..data.len()].copy_from_slice(&data);
    let err = collect_symbol_table_nodes(&file, 0, 8, 8).unwrap_err();
    assert_eq!(err, FormatError::InvalidBTreeNodeType(1));
}

#[test]
fn parse_4byte_offsets() {
    let data = build_btree_node(0, 0, &[0, 4], &[0x50], None, None, 4);
    let node = BTreeV1Node::parse(&data, 0, 4, 4).unwrap();
    assert_eq!(node.entries_used, 1);
    assert_eq!(node.children, vec![0x50]);
}

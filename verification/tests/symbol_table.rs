//! Tests of the module `symbol_table`.

use rustyhdf5_format::error::FormatError;
use rustyhdf5_format::symbol_table::{SymbolTableMessage, SymbolTableNode};

#[test]
fn parse_symbol_table_message_offset8() {
    let mut data = Vec::new();
    data.extend_from_slice(&0x1000u64.to_le_bytes()); // btree
    data.extend_from_slice(&0x2000u64.to_le_bytes()); // heap
    let msg = SymbolTableMessage::parse(&data, 8).unwrap();
    assert_eq!(msg.btree_address, 0x1000);
    assert_eq!(msg.local_heap_address, 0x2000);
}

#[test]
fn parse_symbol_table_message_offset4() {
    let mut data = Vec::new();
    data.extend_from_slice(&0x800u32.to_le_bytes());
    data.extend_from_slice(&0x900u32.to_le_bytes());
    let msg = SymbolTableMessage::parse(&data, 4).unwrap();
    assert_eq!(msg.btree_address, 0x800);
    assert_eq!(msg.local_heap_address, 0x900);
}

fn build_snod(entries: &[(u64, u64, u32)], offset_size: u8) -> Vec<u8> {
    let mut buf = Vec::new();
    // Pad so SNOD is at offset 0
    buf.extend_from_slice(b"SNOD");
    buf.push(1); // version
    buf.push(0); // reserved
    buf.extend_from_slice(&(entries.len() as u16).to_le_bytes());
    for &(name_off, ohdr_addr, cache_type) in entries {
        match offset_size {
            4 => {
                buf.extend_from_slice(&(name_off as u32).to_le_bytes());
                buf.extend_from_slice(&(ohdr_addr as u32).to_le_bytes());
            }
            8 => {
                buf.extend_from_slice(&name_off.to_le_bytes());
                buf.extend_from_slice(&ohdr_addr.to_le_bytes());
            }
            _ => panic!("test offset_size"),
        }
        buf.extend_from_slice(&cache_type.to_le_bytes());
        buf.extend_from_slice(&0u32.to_le_bytes()); // reserved
        buf.extend_from_slice(&[0u8; 16]); // scratch pad
    }
    buf
}

#[test]
fn parse_snod_two_entries() {
    let data = build_snod(&[(0, 0x100, 0), (8, 0x200, 1)], 8);
    let snod = SymbolTableNode::parse(&data, 0, 8).unwrap();
    assert_eq!(snod.entries.len(), 2);
    assert_eq!(snod.entries[0].link_name_offset, 0);
    assert_eq!(snod.entries[0].object_header_address, 0x100);
    assert_eq!(snod.entries[0].cache_type, 0);
    assert_eq!(snod.entries[1].link_name_offset, 8);
    assert_eq!(snod.entries[1].object_header_address, 0x200);
    assert_eq!(snod.entries[1].cache_type, 1);
}

#[test]
fn parse_snod_empty() {
    let data = build_snod(&[], 8);
    let snod = SymbolTableNode::parse(&data, 0, 8).unwrap();
    assert_eq!(snod.entries.len(), 0);
}

#[test]
fn parse_snod_invalid_signature() {
    let mut data = build_snod(&[], 8);
    data[0] = b'X';
    let err = SymbolTableNode::parse(&data, 0, 8).unwrap_err();
    assert_eq!(err, FormatError::InvalidSymbolTableNodeSignature);
}

#[test]
fn parse_snod_invalid_version() {
    let mut data = build_snod(&[], 8);
    data[4] = 2; // bad version
    let err = SymbolTableNode::parse(&data, 0, 8).unwrap_err();
    assert_eq!(err, FormatError::InvalidSymbolTableNodeVersion(2));
}

//! Tests of the module `shared_message`.

use rustyhdf5_format::error::FormatError;
use rustyhdf5_format::message_type::MessageType;
use rustyhdf5_format::shared_message::{
    SharedMessageRef, SohmEntry, SohmIndex, SohmTable, find_index_for_msg_type, is_shared,
    parse_shared_ref, parse_sohm_entry, parse_sohm_list, parse_sohm_table,
    parse_sohm_table_message, resolve_shared_message, sohm_entry_size,
};

#[test]
fn is_shared_flag() {
    assert!(!is_shared(0x00));
    assert!(!is_shared(0x01));
    assert!(is_shared(0x02));
    assert!(is_shared(0x03));
    assert!(is_shared(0x06));
}

#[test]
fn parse_v3_type1_ref() {
    let mut data = Vec::new();
    data.push(3); // version
    data.push(1); // type 1 = shared in another OH
    data.extend_from_slice(&0x1234u64.to_le_bytes()); // address

    let shared = parse_shared_ref(&data, 8).unwrap();
    assert_eq!(shared.version, 3);
    assert_eq!(shared.ref_type, 1);
    assert_eq!(shared.object_header_address, Some(0x1234));
    assert!(shared.heap_id.is_none());
}

#[test]
fn parse_v3_type3_ref() {
    let mut data = Vec::new();
    data.push(3); // version
    data.push(3); // type 3 = shared in another OH (v3 encoding)
    data.extend_from_slice(&0xABCDu64.to_le_bytes());

    let shared = parse_shared_ref(&data, 8).unwrap();
    assert_eq!(shared.version, 3);
    assert_eq!(shared.ref_type, 3);
    assert_eq!(shared.object_header_address, Some(0xABCD));
}

#[test]
fn parse_v1_ref() {
    let mut data = Vec::new();
    data.push(1); // version
    data.push(0); // type
    data.extend_from_slice(&[0u8; 6]); // reserved
    data.extend_from_slice(&0x5678u64.to_le_bytes());

    let shared = parse_shared_ref(&data, 8).unwrap();
    assert_eq!(shared.version, 1);
    assert_eq!(shared.object_header_address, Some(0x5678));
}

#[test]
fn parse_v2_ref() {
    let mut data = Vec::new();
    data.push(2); // version
    data.push(0); // type
    data.extend_from_slice(&[0u8; 6]); // reserved
    data.extend_from_slice(&0x9000u32.to_le_bytes());

    let shared = parse_shared_ref(&data, 4).unwrap();
    assert_eq!(shared.version, 2);
    assert_eq!(shared.object_header_address, Some(0x9000));
}

#[test]
fn parse_v3_type2_sohm() {
    let mut data = Vec::new();
    data.push(3); // version
    data.push(2); // type 2 = SOHM heap
    data.extend_from_slice(&[0xAA, 0xBB, 0xCC, 0xDD, 0x11, 0x22, 0x33, 0x44]);

    let shared = parse_shared_ref(&data, 8).unwrap();
    assert_eq!(shared.version, 3);
    assert_eq!(shared.ref_type, 2);
    assert_eq!(shared.object_header_address, None);
    assert_eq!(
        shared.heap_id,
        Some([0xAA, 0xBB, 0xCC, 0xDD, 0x11, 0x22, 0x33, 0x44])
    );
}

#[test]
fn parse_v3_type2_too_short() {
    let mut data = Vec::new();
    data.push(3); // version
    data.push(2); // type 2 = SOHM heap
    data.extend_from_slice(&[0xAA, 0xBB]); // only 2 bytes, need 8

    let err = parse_shared_ref(&data, 8).unwrap_err();
    assert!(matches!(err, FormatError::UnexpectedEof { .. }));
}

#[test]
fn shared_message_invalid_version() {
    let data = vec![99, 0];
    let err = parse_shared_ref(&data, 8).unwrap_err();
    assert_eq!(err, FormatError::InvalidSharedMessageVersion(99));
}

#[test]
fn shared_message_truncated_data() {
    let data = vec![3u8]; // too short
    let err = parse_shared_ref(&data, 8).unwrap_err();
    assert!(matches!(err, FormatError::UnexpectedEof { .. }));
}

#[test]
fn shared_message_parse_four_byte_offsets() {
    let mut data = Vec::new();
    data.push(3); // version
    data.push(1); // type 1
    data.extend_from_slice(&0x1000u32.to_le_bytes());

    let shared = parse_shared_ref(&data, 4).unwrap();
    assert_eq!(shared.object_header_address, Some(0x1000));
}

// ---- SOHM table message tests ----

#[test]
fn parse_sohm_table_message_8byte() {
    let mut data = Vec::new();
    data.push(0); // version
    data.extend_from_slice(&0x2000u64.to_le_bytes()); // table address
    data.push(3); // nindexes

    let msg = parse_sohm_table_message(&data, 8).unwrap();
    assert_eq!(msg.version, 0);
    assert_eq!(msg.table_address, 0x2000);
    assert_eq!(msg.nindexes, 3);
}

#[test]
fn parse_sohm_table_message_4byte() {
    let mut data = Vec::new();
    data.push(0); // version
    data.extend_from_slice(&0x1000u32.to_le_bytes()); // table address
    data.push(1); // nindexes

    let msg = parse_sohm_table_message(&data, 4).unwrap();
    assert_eq!(msg.table_address, 0x1000);
    assert_eq!(msg.nindexes, 1);
}

#[test]
fn parse_sohm_table_message_bad_version() {
    let data = vec![1]; // version 1 is invalid
    let err = parse_sohm_table_message(&data, 8).unwrap_err();
    assert_eq!(err, FormatError::InvalidSohmTableVersion(1));
}

// ---- SMTB table tests ----

fn build_smtb(indexes: &[SohmIndex], offset_size: u8) -> Vec<u8> {
    let mut buf = Vec::new();
    buf.extend_from_slice(b"SMTB");
    for idx in indexes {
        buf.push(idx.index_type);
        buf.extend_from_slice(&idx.mesg_types.to_le_bytes());
        buf.extend_from_slice(&idx.min_mesg_size.to_le_bytes());
        buf.extend_from_slice(&idx.list_max.to_le_bytes());
        buf.extend_from_slice(&idx.btree_min.to_le_bytes());
        buf.extend_from_slice(&idx.num_messages.to_le_bytes());
        match offset_size {
            4 => {
                buf.extend_from_slice(&(idx.index_addr as u32).to_le_bytes());
                buf.extend_from_slice(&(idx.heap_addr as u32).to_le_bytes());
            }
            8 => {
                buf.extend_from_slice(&idx.index_addr.to_le_bytes());
                buf.extend_from_slice(&idx.heap_addr.to_le_bytes());
            }
            _ => {}
        }
    }
    // Checksum placeholder
    buf.extend_from_slice(&[0u8; 4]);
    buf
}

#[test]
fn parse_smtb_one_index() {
    let indexes = vec![SohmIndex {
        index_type: 0,
        mesg_types: 0x0008, // Datatype
        min_mesg_size: 50,
        list_max: 50,
        btree_min: 40,
        num_messages: 2,
        index_addr: 0x3000,
        heap_addr: 0x4000,
    }];
    let data = build_smtb(&indexes, 8);
    let table = parse_sohm_table(&data, 0, 1, 8).unwrap();
    assert_eq!(table.indexes.len(), 1);
    assert_eq!(table.indexes[0].index_type, 0);
    assert_eq!(table.indexes[0].mesg_types, 0x0008);
    assert_eq!(table.indexes[0].min_mesg_size, 50);
    assert_eq!(table.indexes[0].num_messages, 2);
    assert_eq!(table.indexes[0].index_addr, 0x3000);
    assert_eq!(table.indexes[0].heap_addr, 0x4000);
}

#[test]
fn parse_smtb_two_indexes_4byte() {
    let indexes = vec![
        SohmIndex {
            index_type: 0, mesg_types: 0x0008, min_mesg_size: 50,
            list_max: 50, btree_min: 40, num_messages: 1,
            index_addr: 0x1000, heap_addr: 0x2000,
        },
        SohmIndex {
            index_type: 1, mesg_types: 0x0002, min_mesg_size: 100,
            list_max: 25, btree_min: 15, num_messages: 5,
            index_addr: 0x5000, heap_addr: 0x6000,
        },
    ];
    let data = build_smtb(&indexes, 4);
    let table = parse_sohm_table(&data, 0, 2, 4).unwrap();
    assert_eq!(table.indexes.len(), 2);
    assert_eq!(table.indexes[1].index_type, 1);
    assert_eq!(table.indexes[1].mesg_types, 0x0002);
    assert_eq!(table.indexes[1].num_messages, 5);
    assert_eq!(table.indexes[1].index_addr, 0x5000);
}

#[test]
fn parse_smtb_bad_signature() {
    let mut data = vec![0u8; 32];
    data[0..4].copy_from_slice(b"XXXX");
    let err = parse_sohm_table(&data, 0, 1, 8).unwrap_err();
    assert_eq!(err, FormatError::InvalidSohmTableSignature);
}

// ---- SOHM entry tests ----

#[test]
fn parse_heap_entry() {
    let mut data = Vec::new();
    data.push(0); // location = heap
    data.extend_from_slice(&0x12345678u32.to_le_bytes()); // hash
    data.extend_from_slice(&[1, 2, 3, 4, 5, 6, 7, 8]); // heap_id
    data.extend_from_slice(&3u32.to_le_bytes()); // ref_count
    // Pad to entry size (entry_size for 8-byte offsets = 1+4+max(10,12)=17)
    // OH size with 8-byte offsets = 2+8=10, heap size = 12, max=12
    // Total entry: 1+4+12=17
    // We wrote 1+4+8+4=17 bytes — no padding needed
    let entry = parse_sohm_entry(&data, 8).unwrap();
    assert_eq!(entry.location, 0);
    assert_eq!(entry.hash, 0x12345678);
    assert_eq!(entry.heap_id, Some([1, 2, 3, 4, 5, 6, 7, 8]));
    assert_eq!(entry.ref_count, Some(3));
    assert!(entry.oh_addr.is_none());
}

#[test]
fn parse_oh_entry() {
    let mut data = Vec::new();
    data.push(1); // location = OH
    data.extend_from_slice(&0xAABBCCDDu32.to_le_bytes()); // hash
    data.extend_from_slice(&5u16.to_le_bytes()); // mesg_index
    data.extend_from_slice(&0x7000u64.to_le_bytes()); // oh_addr
    // OH entry: 2+8=10 bytes, heap entry: 12 bytes, so max=12, need 2 bytes padding
    data.extend_from_slice(&[0u8; 2]);

    let entry = parse_sohm_entry(&data, 8).unwrap();
    assert_eq!(entry.location, 1);
    assert_eq!(entry.hash, 0xAABBCCDD);
    assert_eq!(entry.mesg_index, Some(5));
    assert_eq!(entry.oh_addr, Some(0x7000));
    assert!(entry.heap_id.is_none());
}

// ---- SMLI list tests ----

fn build_smli(entries: &[SohmEntry], offset_size: u8) -> Vec<u8> {
    let mut buf = Vec::new();
    buf.extend_from_slice(b"SMLI");
    let entry_sz = sohm_entry_size(offset_size);
    for entry in entries {
        let start = buf.len();
        buf.push(entry.location);
        buf.extend_from_slice(&entry.hash.to_le_bytes());
        if entry.location == 0 {
            buf.extend_from_slice(entry.heap_id.as_ref().unwrap());
            buf.extend_from_slice(&entry.ref_count.unwrap().to_le_bytes());
        } else {
            buf.extend_from_slice(&entry.mesg_index.unwrap().to_le_bytes());
            match offset_size {
                4 => buf.extend_from_slice(&(entry.oh_addr.unwrap() as u32).to_le_bytes()),
                8 => buf.extend_from_slice(&entry.oh_addr.unwrap().to_le_bytes()),
                _ => {}
            }
        }
        // Pad to entry_sz
        let written = buf.len() - start;
        if written < entry_sz {
            buf.resize(buf.len() + entry_sz - written, 0);
        }
    }
    buf.extend_from_slice(&[0u8; 4]); // checksum
    buf
}

#[test]
fn parse_smli_two_entries() {
    let entries = vec![
        SohmEntry {
            location: 0, hash: 0x1111,
            heap_id: Some([10, 20, 30, 40, 50, 60, 70, 80]),
            ref_count: Some(1), mesg_index: None, oh_addr: None,
        },
        SohmEntry {
            location: 0, hash: 0x2222,
            heap_id: Some([11, 21, 31, 41, 51, 61, 71, 81]),
            ref_count: Some(2), mesg_index: None, oh_addr: None,
        },
    ];
    let data = build_smli(&entries, 8);
    let parsed = parse_sohm_list(&data, 0, 2, 8).unwrap();
    assert_eq!(parsed.len(), 2);
    assert_eq!(parsed[0].hash, 0x1111);
    assert_eq!(parsed[0].heap_id, Some([10, 20, 30, 40, 50, 60, 70, 80]));
    assert_eq!(parsed[1].hash, 0x2222);
    assert_eq!(parsed[1].ref_count, Some(2));
}

#[test]
fn parse_smli_bad_signature() {
    let data = vec![b'X', b'X', b'X', b'X'];
    let err = parse_sohm_list(&data, 0, 0, 8).unwrap_err();
    assert_eq!(err, FormatError::InvalidSohmListSignature);
}

// ---- Index lookup tests ----

#[test]
fn find_index_for_datatype() {
    let table = SohmTable {
        indexes: vec![
            SohmIndex {
                index_type: 0,
                mesg_types: 0x0008, // bit 3 = Datatype (0x0003)
                min_mesg_size: 50, list_max: 50, btree_min: 40,
                num_messages: 1, index_addr: 0x1000, heap_addr: 0x2000,
            },
        ],
    };
    let idx = find_index_for_msg_type(&table, MessageType::Datatype);
    assert!(idx.is_some());
    assert_eq!(idx.unwrap().heap_addr, 0x2000);
}

#[test]
fn find_index_no_match() {
    let table = SohmTable {
        indexes: vec![
            SohmIndex {
                index_type: 0,
                mesg_types: 0x0002, // bit 1 = Dataspace
                min_mesg_size: 50, list_max: 50, btree_min: 40,
                num_messages: 1, index_addr: 0x1000, heap_addr: 0x2000,
            },
        ],
    };
    let idx = find_index_for_msg_type(&table, MessageType::Datatype);
    assert!(idx.is_none());
}

#[test]
fn entry_size_calculations() {
    // With 8-byte offsets: OH=2+8=10, heap=12, entry=1+4+12=17
    assert_eq!(sohm_entry_size(8), 17);
    // With 4-byte offsets: OH=2+4=6, heap=12, entry=1+4+12=17
    assert_eq!(sohm_entry_size(4), 17);
    // With 2-byte offsets: OH=2+2=4, heap=12, entry=1+4+12=17
    assert_eq!(sohm_entry_size(2), 17);
}

/// An object header of version 1 with the given messages: their types, flags and data.
fn header_v1(messages: &[(u16, u8, [u8; 8])]) -> Vec<u8> {
    let mut d = vec![1, 0];
    d.extend_from_slice(&(messages.len() as u16).to_le_bytes());
    d.extend_from_slice(&1u32.to_le_bytes());
    d.extend_from_slice(&((messages.len() * 16) as u32).to_le_bytes());
    d.extend_from_slice(&[0; 4]);
    for (kind, flags, data) in messages {
        d.extend_from_slice(&kind.to_le_bytes());
        d.extend_from_slice(&8u16.to_le_bytes());
        d.extend_from_slice(&[*flags, 0, 0, 0]);
        d.extend_from_slice(data);
    }
    d
}

#[test]
fn first_own_message_is_picked() {
    let mut file = vec![0u8; 32];
    file.extend(header_v1(&[
        (0x0003, 0x02, *b"shared!!"),
        (0x0001, 0x00, *b"another!"),
        (0x0003, 0x00, *b"wanted!!"),
        (0x0003, 0x00, *b"too late"),
    ]));
    for ref_type in [1u8, 3] {
        let reference = SharedMessageRef {
            ref_type,
            version: 3,
            object_header_address: Some(32),
            heap_id: None,
        };
        let data =
            resolve_shared_message(&file, &reference, MessageType::Datatype, 8, 8).unwrap();
        assert_eq!(data, b"wanted!!");
    }
}

#[test]
fn unresolvable_references_are_errors() {
    for ref_type in [0u8, 2, 4, 255] {
        let reference = SharedMessageRef {
            ref_type,
            version: 3,
            object_header_address: Some(0),
            heap_id: None,
        };
        assert_eq!(
            resolve_shared_message(&[0; 64], &reference, MessageType::Datatype, 8, 8).unwrap_err(),
            FormatError::InvalidSharedMessageVersion(ref_type)
        );
    }
}

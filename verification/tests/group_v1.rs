//! Tests of the module `group_v1`.

use rustyhdf5_format::error::FormatError;
use rustyhdf5_format::group_v1::{resolve_path, resolve_v1_group_entries};
use rustyhdf5_format::symbol_table::SymbolTableMessage;

// Helper to write an offset value into a buffer
fn write_off(buf: &mut Vec<u8>, val: u64, size: u8) {
    match size {
        4 => buf.extend_from_slice(&(val as u32).to_le_bytes()),
        8 => buf.extend_from_slice(&val.to_le_bytes()),
        _ => panic!("test offset size"),
    }
}

/// Build a minimal synthetic file with a group containing named children.
/// Returns (file_data, SymbolTableMessage).
fn build_synthetic_group(
    children: &[(&str, u64, u32)], // (name, obj_header_addr, cache_type)
    offset_size: u8,
    length_size: u8,
) -> (Vec<u8>, SymbolTableMessage) {
    let os = offset_size as usize;
    let ls = length_size as usize;

    // Build local heap data segment (names)
    let mut heap_data = Vec::new();
    let mut name_offsets = Vec::new();
    for (name, _, _) in children {
        name_offsets.push(heap_data.len() as u64);
        heap_data.extend_from_slice(name.as_bytes());
        heap_data.push(0);
    }
    let heap_data_size = heap_data.len();

    // Layout:
    // 0: local heap header
    // heap_header_end: heap data segment
    // after heap data: SNOD
    // after SNOD: B-tree leaf

    let heap_offset = 0usize;
    let heap_header_size = 8 + ls * 2 + os;
    let heap_data_offset = heap_header_size;
    let snod_offset = heap_data_offset + heap_data_size;
    // Pad to nice offset
    let snod_offset = (snod_offset + 7) & !7;

    let entry_size = os + os + 4 + 4 + 16;
    let snod_size = 8 + children.len() * entry_size;
    let btree_offset = snod_offset + snod_size;
    let btree_offset = (btree_offset + 7) & !7;

    // B-tree: entries_used = 1 child (the SNOD), keys = [0, last_name_end]
    let last_key = if children.is_empty() {
        0u64
    } else {
        heap_data_size as u64
    };
    let btree_header_size = 8 + os * 2; // sig + type + level + entries + siblings
    let btree_keys_children = os + os + os; // key[0] + child[0] + key[1]
    let total_size = btree_offset + btree_header_size + btree_keys_children + 64;

    let mut file = vec![0u8; total_size];

    // Write heap header
    {
        let mut pos = heap_offset;
        file[pos..pos + 4].copy_from_slice(b"HEAP");
        pos += 4;
        file[pos] = 0; // version
        pos += 4; // version(1) + reserved(3)
        // data_segment_size
        match length_size {
            4 => file[pos..pos + 4].copy_from_slice(&(heap_data_size as u32).to_le_bytes()),
            8 => file[pos..pos + 8].copy_from_slice(&(heap_data_size as u64).to_le_bytes()),
            _ => {}
        }
        pos += ls;
        // free_list_head_offset
        match length_size {
            4 => file[pos..pos + 4].copy_from_slice(&0xFFFFFFFFu32.to_le_bytes()),
            8 => file[pos..pos + 8].copy_from_slice(&0xFFFFFFFFFFFFFFFFu64.to_le_bytes()),
            _ => {}
        }
        pos += ls;
        // data_segment_address
        match offset_size {
            4 => file[pos..pos + 4].copy_from_slice(&(heap_data_offset as u32).to_le_bytes()),
            8 => file[pos..pos + 8].copy_from_slice(&(heap_data_offset as u64).to_le_bytes()),
            _ => {}
        }
    }

    // Write heap data segment
    file[heap_data_offset..heap_data_offset + heap_data_size].copy_from_slice(&heap_data);

    // Write SNOD
    {
        let mut pos = snod_offset;
        file[pos..pos + 4].copy_from_slice(b"SNOD");
        pos += 4;
        file[pos] = 1; // version
        pos += 1;
        pos += 1; // reserved
        file[pos..pos + 2].copy_from_slice(&(children.len() as u16).to_le_bytes());
        pos += 2;
        for (idx, &(_, obj_addr, cache_type)) in children.iter().enumerate() {
            // link_name_offset
            match offset_size {
                4 => file[pos..pos + 4]
                    .copy_from_slice(&(name_offsets[idx] as u32).to_le_bytes()),
                8 => file[pos..pos + 8].copy_from_slice(&name_offsets[idx].to_le_bytes()),
                _ => {}
            }
            pos += os;
            // object_header_address
            match offset_size {
                4 => file[pos..pos + 4].copy_from_slice(&(obj_addr as u32).to_le_bytes()),
                8 => file[pos..pos + 8].copy_from_slice(&obj_addr.to_le_bytes()),
                _ => {}
            }
            pos += os;
            file[pos..pos + 4].copy_from_slice(&cache_type.to_le_bytes());
            pos += 4;
            pos += 4; // reserved
            pos += 16; // scratch pad (zeros)
        }
    }

    // Write B-tree (leaf, level 0, 1 entry pointing to SNOD)
    {
        let mut pos = btree_offset;
        file[pos..pos + 4].copy_from_slice(b"TREE");
        pos += 4;
        file[pos] = 0; // type=group
        pos += 1;
        file[pos] = 0; // level=leaf
        pos += 1;
        file[pos..pos + 2].copy_from_slice(&1u16.to_le_bytes()); // entries_used=1
        pos += 2;
        // siblings = undefined
        for _ in 0..2 {
            match offset_size {
                4 => file[pos..pos + 4].copy_from_slice(&0xFFFFFFFFu32.to_le_bytes()),
                8 => file[pos..pos + 8].copy_from_slice(&0xFFFFFFFFFFFFFFFFu64.to_le_bytes()),
                _ => {}
            }
            pos += os;
        }
        // key[0]
        match offset_size {
            4 => file[pos..pos + 4].copy_from_slice(&0u32.to_le_bytes()),
            8 => file[pos..pos + 8].copy_from_slice(&0u64.to_le_bytes()),
            _ => {}
        }
        pos += os;
        // child[0] = snod_offset
        match offset_size {
            4 => file[pos..pos + 4].copy_from_slice(&(snod_offset as u32).to_le_bytes()),
            8 => file[pos..pos + 8].copy_from_slice(&(snod_offset as u64).to_le_bytes()),
            _ => {}
        }
        pos += os;
        // key[1]
        match offset_size {
            4 => file[pos..pos + 4].copy_from_slice(&(last_key as u32).to_le_bytes()),
            8 => file[pos..pos + 8].copy_from_slice(&last_key.to_le_bytes()),
            _ => {}
        }
    }

    let msg = SymbolTableMessage {
        btree_address: btree_offset as u64,
        local_heap_address: heap_offset as u64,
    };

    (file, msg)
}

#[test]
fn resolve_entries_two_children() {
    let (file, msg) = build_synthetic_group(&[("alpha", 0x1000, 0), ("beta", 0x2000, 0)], 8, 8);
    let entries = resolve_v1_group_entries(&file, &msg, 8, 8).unwrap();
    assert_eq!(entries.len(), 2);
    assert_eq!(entries[0].name, "alpha");
    assert_eq!(entries[0].object_header_address, 0x1000);
    assert_eq!(entries[1].name, "beta");
    assert_eq!(entries[1].object_header_address, 0x2000);
}

#[test]
fn resolve_path_single_level() {
    let (file, msg) =
        build_synthetic_group(&[("child1", 0x3000, 0), ("child2", 0x4000, 0)], 8, 8);
    let addr = resolve_path(&file, &msg, "child1", 8, 8).unwrap();
    assert_eq!(addr, 0x3000);
}

#[test]
fn resolve_path_not_found() {
    let (file, msg) = build_synthetic_group(&[("x", 0x100, 0)], 8, 8);
    let err = resolve_path(&file, &msg, "nonexistent", 8, 8).unwrap_err();
    assert!(matches!(err, FormatError::PathNotFound(_)));
}

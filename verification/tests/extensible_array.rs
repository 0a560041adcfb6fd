//! Tests of the module `extensible_array`.

use rustyhdf5_format::extensible_array::{
    ExtensibleArrayHeader, read_element, read_extensible_array_chunks,
};
use rustyhdf5_format::fixed_array::index_to_chunk_offsets;

#[test]
fn extensible_array_index_to_offsets_1d() {
    let num_chunks = vec![5u64];
    let chunk_dims = vec![20u32];
    assert_eq!(index_to_chunk_offsets(0, &num_chunks, &chunk_dims), vec![0]);
    assert_eq!(index_to_chunk_offsets(1, &num_chunks, &chunk_dims), vec![20]);
    assert_eq!(index_to_chunk_offsets(4, &num_chunks, &chunk_dims), vec![80]);
}

#[test]
fn extensible_array_index_to_offsets_2d() {
    let num_chunks = vec![3u64, 2];
    let chunk_dims = vec![4u32, 3];
    assert_eq!(index_to_chunk_offsets(0, &num_chunks, &chunk_dims), vec![0, 0]);
    assert_eq!(index_to_chunk_offsets(1, &num_chunks, &chunk_dims), vec![0, 3]);
    assert_eq!(index_to_chunk_offsets(2, &num_chunks, &chunk_dims), vec![4, 0]);
}

#[test]
fn parse_header_valid() {
    let os: u8 = 8;
    let ls: u8 = 8;
    let mut buf = vec![0u8; 256];
    buf[0..4].copy_from_slice(b"EAHD");
    buf[4] = 0; // version
    buf[5] = 0; // client_id = non-filtered
    buf[6] = 8; // element_size
    buf[7] = 10; // max_nelmts_bits
    buf[8] = 2; // idx_blk_elmts
    buf[9] = 4; // min_dblk_nelmts
    buf[10] = 2; // super_blk_min_nelmts
    buf[11] = 8; // max_dblk_nelmts_bits
    // 6 stats fields (each 8 bytes)
    buf[12..20].copy_from_slice(&0u64.to_le_bytes()); // stat[0]
    buf[20..28].copy_from_slice(&0u64.to_le_bytes()); // stat[1]
    buf[28..36].copy_from_slice(&0u64.to_le_bytes()); // stat[2]
    buf[36..44].copy_from_slice(&0u64.to_le_bytes()); // stat[3]
    buf[44..52].copy_from_slice(&5u64.to_le_bytes()); // stat[4] = num_elements
    buf[52..60].copy_from_slice(&0u64.to_le_bytes()); // stat[5]
    buf[60..68].copy_from_slice(&0x1000u64.to_le_bytes()); // index_block_address

    let hdr = ExtensibleArrayHeader::parse(&buf, 0, os, ls).unwrap();
    assert_eq!(hdr.client_id, 0);
    assert_eq!(hdr.element_size, 8);
    assert_eq!(hdr.idx_blk_elmts, 2);
    assert_eq!(hdr.min_dblk_nelmts, 4);
    assert_eq!(hdr.num_elements, 5);
    assert_eq!(hdr.index_block_address, 0x1000);
}

#[test]
fn parse_header_invalid_signature() {
    let mut buf = vec![0u8; 256];
    buf[0..4].copy_from_slice(b"XXXX");
    let result = ExtensibleArrayHeader::parse(&buf, 0, 8, 8);
    assert!(result.is_err());
}

#[test]
fn parse_header_invalid_version() {
    let mut buf = vec![0u8; 256];
    buf[0..4].copy_from_slice(b"EAHD");
    buf[4] = 1;
    let result = ExtensibleArrayHeader::parse(&buf, 0, 8, 8);
    assert!(result.is_err());
}

/// Build a synthetic Extensible Array with only inline elements (simplest case).
/// All chunks fit in the index block.
#[test]
fn read_inline_only() {
    let os: u8 = 8;
    let ls: u8 = 8;
    let osv = os as usize;
    let num_chunks = 2usize;
    let chunk_byte_size = 20u64 * 8; // 20 elements × 8 bytes

    let mut file_data = vec![0u8; 0x3000];

    // AEHD at offset 0x100
    let aehd_offset = 0x100usize;
    let aeib_offset = 0x200usize;

    // Build AEHD
    file_data[aehd_offset..aehd_offset + 4].copy_from_slice(b"EAHD");
    file_data[aehd_offset + 4] = 0; // version
    file_data[aehd_offset + 5] = 0; // client_id = non-filtered
    file_data[aehd_offset + 6] = osv as u8; // element_size
    file_data[aehd_offset + 7] = 10; // max_nelmts_bits
    file_data[aehd_offset + 8] = num_chunks as u8; // idx_blk_elmts (all inline)
    file_data[aehd_offset + 9] = 4; // min_dblk_nelmts
    file_data[aehd_offset + 10] = 2; // super_blk_min_nelmts
    file_data[aehd_offset + 11] = 8; // max_dblk_nelmts_bits
    // 6 stats fields (each 8 bytes), nelmts at stat[4]
    file_data[aehd_offset + 44..aehd_offset + 52]
        .copy_from_slice(&(num_chunks as u64).to_le_bytes());
    file_data[aehd_offset + 60..aehd_offset + 68]
        .copy_from_slice(&(aeib_offset as u64).to_le_bytes());
    // checksum (4 bytes at +68) — not validated

    // Build AEIB at aeib_offset
    file_data[aeib_offset..aeib_offset + 4].copy_from_slice(b"EAIB");
    file_data[aeib_offset + 4] = 0; // version
    file_data[aeib_offset + 5] = 0; // client_id
    file_data[aeib_offset + 6..aeib_offset + 14]
        .copy_from_slice(&(aehd_offset as u64).to_le_bytes());

    // Inline elements
    let elem_start = aeib_offset + 6 + osv;
    let base_addr = 0x1000u64;
    for i in 0..num_chunks {
        let addr = base_addr + i as u64 * chunk_byte_size;
        let p = elem_start + i * osv;
        file_data[p..p + osv].copy_from_slice(&addr.to_le_bytes());
    }

    let header = ExtensibleArrayHeader::parse(&file_data, aehd_offset, os, ls).unwrap();
    let ds_dims = vec![40u64]; // 2 chunks × 20 elements
    let chunk_dims = vec![20u32];
    let chunks = read_extensible_array_chunks(
        &file_data,
        &header,
        &ds_dims,
        &chunk_dims,
        8,
        os,
        ls,
    )
    .unwrap();

    assert_eq!(chunks.len(), 2);
    assert_eq!(chunks[0].address, base_addr);
    assert_eq!(chunks[0].offsets, vec![0]);
    assert_eq!(chunks[0].chunk_size, chunk_byte_size as u32);
    assert_eq!(chunks[1].address, base_addr + chunk_byte_size);
    assert_eq!(chunks[1].offsets, vec![20]);
}

/// Build a synthetic EA with inline elements + one direct data block.
#[test]
fn read_inline_plus_data_blocks() {
    let os: u8 = 8;
    let ls: u8 = 8;
    let osv = os as usize;
    let chunk_byte_size = 10u64 * 8; // 10 elements × 8 bytes
    let idx_blk_elmts = 2u8;
    let min_dblk_nelmts = 2u8;
    let sblk_min = 2u8;
    let total_chunks = 4usize; // 2 inline + 2 in data block (1 dblk from sb_level 0)

    let mut file_data = vec![0u8; 0x5000];
    let aehd_offset = 0x100usize;
    let aeib_offset = 0x200usize;
    let aedb_offset = 0x300usize;

    // EAHD
    file_data[aehd_offset..aehd_offset + 4].copy_from_slice(b"EAHD");
    file_data[aehd_offset + 4] = 0;
    file_data[aehd_offset + 5] = 0; // client_id
    file_data[aehd_offset + 6] = osv as u8; // element_size
    file_data[aehd_offset + 7] = 10;
    file_data[aehd_offset + 8] = idx_blk_elmts;
    file_data[aehd_offset + 9] = min_dblk_nelmts;
    file_data[aehd_offset + 10] = sblk_min;
    file_data[aehd_offset + 11] = 8;
    // 6 stats fields (each 8 bytes), nelmts at stat[4] (offset 12 + 4*8 = 44)
    file_data[aehd_offset + 44..aehd_offset + 52]
        .copy_from_slice(&(total_chunks as u64).to_le_bytes());
    // idx_blk_addr at offset 12 + 6*8 = 60
    file_data[aehd_offset + 60..aehd_offset + 68]
        .copy_from_slice(&(aeib_offset as u64).to_le_bytes());

    // AEIB
    file_data[aeib_offset..aeib_offset + 4].copy_from_slice(b"EAIB");
    file_data[aeib_offset + 4] = 0;
    file_data[aeib_offset + 5] = 0;
    file_data[aeib_offset + 6..aeib_offset + 14]
        .copy_from_slice(&(aehd_offset as u64).to_le_bytes());

    let mut pos = aeib_offset + 6 + osv;

    // Inline elements (2 chunks)
    let base_addr = 0x1000u64;
    for i in 0..idx_blk_elmts as usize {
        let addr = base_addr + i as u64 * chunk_byte_size;
        file_data[pos..pos + osv].copy_from_slice(&addr.to_le_bytes());
        pos += osv;
    }

    // Direct data block addresses: first sb_level=0 has 1 dblk, sb_level=1 has 1 dblk
    // Total direct dblks for sblk_min=2: 2^0 + 2^1 = 1 + 2 = 3 (oops)
    // Actually: sblk_min levels. level 0: 2^0=1 dblk, level 1: 2^1=2 dblks => 3 dblks
    // But we only have 2 remaining elements.
    // dblk sizes: level 0: 1 dblk of min_dblk=2; level 1: 2 dblks of 2 each (nelmts doubles at level > 0)
    // Wait, re-reading the code: at level 0, nelmts=min_dblk=2, 1 dblk.
    // At level 1, 1 dblk, nelmts still 2 (doubles only at level > 0... but the code says
    // `if sb_level > 0 { nelmts *= 2 }` after pushing). Let me re-check.
    // After push at level 0: nelmts=2. Then if 0>0 false, no double. Push 1 dblk of 2.
    // Level 1: ndblks=2. Push 2 dblks of 2. Then 1>0 true, nelmts=4.
    // Total: 3 dblks with sizes [2, 2, 2]. Total = 6.
    // We only need 2 more elements. So only the first dblk has data.
    let n_direct_dblks = 3;
    file_data[pos..pos + osv].copy_from_slice(&(aedb_offset as u64).to_le_bytes());
    pos += osv;
    // 2 more dblk addresses - undefined
    for _ in 1..n_direct_dblks {
        file_data[pos..pos + osv].copy_from_slice(&u64::MAX.to_le_bytes());
        pos += osv;
    }

    // EADB at aedb_offset (min_dblk_nelmts elements)
    file_data[aedb_offset..aedb_offset + 4].copy_from_slice(b"EADB");
    file_data[aedb_offset + 4] = 0;
    file_data[aedb_offset + 5] = 0;
    file_data[aedb_offset + 6..aedb_offset + 14]
        .copy_from_slice(&(aehd_offset as u64).to_le_bytes());
    // block_offset: ceil(max_nelmts_bits/8) = ceil(10/8) = 2 bytes
    // block_offset = 0 for first data block
    let blk_off_size = (10usize).div_ceil(8); // max_nelmts_bits=10
    let mut dbpos = aedb_offset + 6 + osv + blk_off_size;
    for i in 0..min_dblk_nelmts as usize {
        let addr = base_addr + (idx_blk_elmts as u64 + i as u64) * chunk_byte_size;
        file_data[dbpos..dbpos + osv].copy_from_slice(&addr.to_le_bytes());
        dbpos += osv;
    }

    let header = ExtensibleArrayHeader::parse(&file_data, aehd_offset, os, ls).unwrap();
    let ds_dims = vec![40u64];
    let chunk_dims = vec![10u32];
    let chunks = read_extensible_array_chunks(
        &file_data, &header, &ds_dims, &chunk_dims, 8, os, ls,
    )
    .unwrap();

    assert_eq!(chunks.len(), 4);
    for (i, c) in chunks.iter().enumerate() {
        assert_eq!(c.address, base_addr + i as u64 * chunk_byte_size);
        assert_eq!(c.offsets, vec![i as u64 * 10]);
    }
}

/// Test serialized_size computation.
#[test]
fn header_serialized_size() {
    // 12 fixed + 6*8 stats + 8 addr + 4 checksum = 72
    assert_eq!(ExtensibleArrayHeader::serialized_size(8, 8), 72);
    // 12 fixed + 6*4 stats + 4 addr + 4 checksum = 44
    assert_eq!(ExtensibleArrayHeader::serialized_size(4, 4), 44);
}

/// Verify read_element for unallocated slots.
#[test]
fn read_element_unallocated() {
    let data = vec![0xFFu8; 16];
    let num_chunks = vec![5u64];
    let chunk_dims = vec![10u32];
    let (info, consumed) = read_element(
        &data, 0, 0, 8, 8, 80, 0, &num_chunks, &chunk_dims,
    )
    .unwrap();
    assert!(info.is_none());
    assert_eq!(consumed, 8);
}

/// Verify filtered element reading.
#[test]
fn read_element_filtered() {
    let os: u8 = 8;
    let chunk_size_bytes = 4usize;
    let elem_size = os as usize + chunk_size_bytes + 4;
    let mut data = vec![0u8; elem_size + 16];
    // Address
    data[0..8].copy_from_slice(&0x2000u64.to_le_bytes());
    // Compressed size (4 bytes LE)
    data[8..12].copy_from_slice(&120u32.to_le_bytes());
    // Filter mask
    data[12..16].copy_from_slice(&0u32.to_le_bytes());

    let num_chunks = vec![5u64];
    let chunk_dims = vec![10u32];
    let (info, consumed) = read_element(
        &data, 0, 1, elem_size as u8, os, 80, 2, &num_chunks, &chunk_dims,
    )
    .unwrap();
    let ci = info.unwrap();
    assert_eq!(ci.address, 0x2000);
    assert_eq!(ci.chunk_size, 120);
    assert_eq!(ci.filter_mask, 0);
    assert_eq!(ci.offsets, vec![20]);
    assert_eq!(consumed, elem_size);
}

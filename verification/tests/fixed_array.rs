//! Tests of the module `fixed_array`.

use rustyhdf5_format::fixed_array::{
    FixedArrayHeader, index_to_chunk_offsets, read_fixed_array_chunks,
};
use rustyhdf5_format::utils::read_variable_length;

#[test]
fn fixed_array_index_to_offsets_1d() {
    let num_chunks = vec![5u64];
    let chunk_dims = vec![20u32];
    assert_eq!(index_to_chunk_offsets(0, &num_chunks, &chunk_dims), vec![0]);
    assert_eq!(index_to_chunk_offsets(1, &num_chunks, &chunk_dims), vec![20]);
    assert_eq!(index_to_chunk_offsets(4, &num_chunks, &chunk_dims), vec![80]);
}

#[test]
fn fixed_array_index_to_offsets_2d() {
    // 10x6 dataset with 4x3 chunks => ceil(10/4)=3, ceil(6/3)=2 => 6 chunks
    let num_chunks = vec![3u64, 2];
    let chunk_dims = vec![4u32, 3];
    assert_eq!(index_to_chunk_offsets(0, &num_chunks, &chunk_dims), vec![0, 0]);
    assert_eq!(index_to_chunk_offsets(1, &num_chunks, &chunk_dims), vec![0, 3]);
    assert_eq!(index_to_chunk_offsets(2, &num_chunks, &chunk_dims), vec![4, 0]);
    assert_eq!(index_to_chunk_offsets(3, &num_chunks, &chunk_dims), vec![4, 3]);
    assert_eq!(index_to_chunk_offsets(5, &num_chunks, &chunk_dims), vec![8, 3]);
}

#[test]
fn read_variable_length_values() {
    assert_eq!(read_variable_length(&[0x78, 0x56], 2).unwrap(), 0x5678);
    assert_eq!(read_variable_length(&[0x01, 0x02, 0x03, 0x04], 4).unwrap(), 0x04030201);
    assert_eq!(read_variable_length(&[0xFF], 1).unwrap(), 0xFF);
}

#[test]
fn parse_fixed_array_header_valid() {
    let mut buf = vec![0u8; 256];
    // FAHD signature
    buf[0..4].copy_from_slice(b"FAHD");
    buf[4] = 0; // version
    buf[5] = 1; // client_id = filtered
    buf[6] = 16; // element_size
    buf[7] = 10; // max_nelmts_bits (page_size = 1024)
    // num_elements (length_size=8)
    buf[8..16].copy_from_slice(&5u64.to_le_bytes());
    // data_block_address (offset_size=8)
    buf[16..24].copy_from_slice(&0x1000u64.to_le_bytes());
    // checksum (4 bytes, we don't validate in parse)

    let header = FixedArrayHeader::parse(&buf, 0, 8, 8).unwrap();
    assert_eq!(header.client_id, 1);
    assert_eq!(header.element_size, 16);
    assert_eq!(header.max_nelmts_bits, 10);
    assert_eq!(header.num_elements, 5);
    assert_eq!(header.data_block_address, 0x1000);
}

#[test]
fn parse_fixed_array_header_invalid_signature() {
    let mut buf = vec![0u8; 256];
    buf[0..4].copy_from_slice(b"XXXX");
    let result = FixedArrayHeader::parse(&buf, 0, 8, 8);
    assert!(result.is_err());
}

#[test]
fn parse_fixed_array_header_invalid_version() {
    let mut buf = vec![0u8; 256];
    buf[0..4].copy_from_slice(b"FAHD");
    buf[4] = 1; // unsupported version
    let result = FixedArrayHeader::parse(&buf, 0, 8, 8);
    assert!(result.is_err());
}

/// Build a synthetic Fixed Array (non-filtered) and verify reading.
#[test]
fn read_non_filtered_chunks() {
    let offset_size: u8 = 8;
    let length_size: u8 = 8;
    let os = offset_size as usize;
    let num_chunks = 5u64;

    let mut file_data = vec![0u8; 0x3000];

    // Build FAHD at offset 0x100
    let fahd_offset = 0x100usize;
    let db_offset = 0x200usize;
    file_data[fahd_offset..fahd_offset + 4].copy_from_slice(b"FAHD");
    file_data[fahd_offset + 4] = 0; // version
    file_data[fahd_offset + 5] = 0; // client_id = non-filtered
    file_data[fahd_offset + 6] = os as u8; // element_size = just address
    file_data[fahd_offset + 7] = 10; // max_nelmts_bits
    file_data[fahd_offset + 8..fahd_offset + 16].copy_from_slice(&num_chunks.to_le_bytes());
    file_data[fahd_offset + 16..fahd_offset + 24]
        .copy_from_slice(&(db_offset as u64).to_le_bytes());

    // Build FADB at db_offset
    file_data[db_offset..db_offset + 4].copy_from_slice(b"FADB");
    file_data[db_offset + 4] = 0; // version
    file_data[db_offset + 5] = 0; // client_id
    file_data[db_offset + 6..db_offset + 14]
        .copy_from_slice(&(fahd_offset as u64).to_le_bytes()); // header_address

    // Elements: 5 addresses
    let elem_start = db_offset + 6 + os;
    let base_addr = 0x1000u64;
    let chunk_byte_size = 20 * 8; // 20 elements × 8 bytes
    for i in 0..5 {
        let addr = base_addr + i as u64 * chunk_byte_size as u64;
        let pos = elem_start + i * os;
        file_data[pos..pos + os].copy_from_slice(&addr.to_le_bytes());
    }

    let header = FixedArrayHeader::parse(&file_data, fahd_offset, offset_size, length_size)
        .unwrap();
    let ds_dims = vec![100u64];
    let chunk_dims = vec![20u32];
    let chunks = read_fixed_array_chunks(
        &file_data, &header, &ds_dims, &chunk_dims, 8, offset_size, length_size,
    ).unwrap();

    assert_eq!(chunks.len(), 5);
    for (i, c) in chunks.iter().enumerate() {
        assert_eq!(c.address, base_addr + i as u64 * chunk_byte_size as u64);
        assert_eq!(c.offsets, vec![i as u64 * 20]);
        assert_eq!(c.filter_mask, 0);
        assert_eq!(c.chunk_size, chunk_byte_size as u32);
    }
}

/// Build a synthetic Fixed Array (filtered) and verify reading.
#[test]
fn read_filtered_chunks() {
    let offset_size: u8 = 8;
    let length_size: u8 = 8;
    let os = offset_size as usize;
    let num_chunks = 3u64;
    // element_size for filtered: offset_size + chunk_size_bytes + 4(filter_mask)
    // chunk_size_bytes: let's use 4 bytes
    let chunk_size_bytes = 4usize;
    let elem_size = os + chunk_size_bytes + 4;

    let mut file_data = vec![0u8; 0x3000];

    let fahd_offset = 0x100usize;
    let db_offset = 0x200usize;
    file_data[fahd_offset..fahd_offset + 4].copy_from_slice(b"FAHD");
    file_data[fahd_offset + 4] = 0;
    file_data[fahd_offset + 5] = 1; // client_id = filtered
    file_data[fahd_offset + 6] = elem_size as u8;
    file_data[fahd_offset + 7] = 10;
    file_data[fahd_offset + 8..fahd_offset + 16].copy_from_slice(&num_chunks.to_le_bytes());
    file_data[fahd_offset + 16..fahd_offset + 24]
        .copy_from_slice(&(db_offset as u64).to_le_bytes());

    file_data[db_offset..db_offset + 4].copy_from_slice(b"FADB");
    file_data[db_offset + 4] = 0;
    file_data[db_offset + 5] = 1;
    file_data[db_offset + 6..db_offset + 14]
        .copy_from_slice(&(fahd_offset as u64).to_le_bytes());

    let elem_start = db_offset + 6 + os;
    let test_chunks = [
        (0x1000u64, 120u32, 0u32),
        (0x2000u64, 115u32, 0u32),
        (0x3000u64, 100u32, 0u32),
    ];

    for (i, &(addr, csize, fmask)) in test_chunks.iter().enumerate() {
        let pos = elem_start + i * elem_size;
        file_data[pos..pos + os].copy_from_slice(&addr.to_le_bytes());
        // chunk_size as 4 bytes LE
        file_data[pos + os..pos + os + 4].copy_from_slice(&csize.to_le_bytes());
        file_data[pos + os + 4..pos + os + 8].copy_from_slice(&fmask.to_le_bytes());
    }

    let header = FixedArrayHeader::parse(&file_data, fahd_offset, offset_size, length_size)
        .unwrap();
    let ds_dims = vec![60u64];
    let chunk_dims = vec![20u32];
    let chunks = read_fixed_array_chunks(
        &file_data, &header, &ds_dims, &chunk_dims, 8, offset_size, length_size,
    ).unwrap();

    assert_eq!(chunks.len(), 3);
    assert_eq!(chunks[0].address, 0x1000);
    assert_eq!(chunks[0].chunk_size, 120);
    assert_eq!(chunks[0].filter_mask, 0);
    assert_eq!(chunks[0].offsets, vec![0]);
    assert_eq!(chunks[1].address, 0x2000);
    assert_eq!(chunks[1].chunk_size, 115);
    assert_eq!(chunks[2].address, 0x3000);
    assert_eq!(chunks[2].chunk_size, 100);
}

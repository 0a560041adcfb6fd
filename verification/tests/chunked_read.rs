//! Tests of the module `chunked_read`.

use rustyhdf5_format::chunk_cache::{ChunkCache, ChunkInfo};
use rustyhdf5_format::chunked_read::{
    SweepContext, collect_chunk_info, generate_implicit_chunks, read_chunked_data,
    read_chunked_data_cached, read_chunked_data_sweep,
};
use rustyhdf5_format::data_layout::DataLayout;
use rustyhdf5_format::dataspace::{Dataspace, DataspaceType};
use rustyhdf5_format::datatype::Datatype;
use rustyhdf5_format::error::FormatError;
use rustyhdf5_format::filter_pipeline::{FILTER_DEFLATE, FilterDescription, FilterPipeline};
use rustyhdf5_format::filters::compress_chunk;

fn write_offset(buf: &mut Vec<u8>, val: u64, size: u8) {
    match size {
        4 => buf.extend_from_slice(&(val as u32).to_le_bytes()),
        8 => buf.extend_from_slice(&val.to_le_bytes()),
        _ => panic!("unsupported offset size in test"),
    }
}

/// Build a B-tree v1 type 1 leaf node with given chunk infos.
fn build_chunk_btree_leaf(chunks: &[ChunkInfo], ndims: usize, offset_size: u8) -> Vec<u8> {
    let _os = offset_size as usize;
    let entries_used = chunks.len() as u16;
    let mut buf = Vec::new();

    // Header
    buf.extend_from_slice(b"TREE");
    buf.push(1); // node_type = 1 (raw data chunks)
    buf.push(0); // node_level = 0 (leaf)
    buf.extend_from_slice(&entries_used.to_le_bytes());

    // Left/right sibling = undefined
    let undef: u64 = if offset_size == 4 {
        0xFFFFFFFF
    } else {
        0xFFFFFFFFFFFFFFFF
    };
    write_offset(&mut buf, undef, offset_size);
    write_offset(&mut buf, undef, offset_size);

    // Entries: key[i], child[i] pairs, then final key
    for chunk in chunks {
        // Key: chunk_size(4) + filter_mask(4) + ndims offsets
        buf.extend_from_slice(&chunk.chunk_size.to_le_bytes());
        buf.extend_from_slice(&chunk.filter_mask.to_le_bytes());
        for d in 0..ndims {
            let off = if d < chunk.offsets.len() {
                chunk.offsets[d]
            } else {
                0
            };
            write_offset(&mut buf, off, offset_size);
        }
        // Child: address
        write_offset(&mut buf, chunk.address, offset_size);
    }

    // Final key (dummy)
    buf.extend_from_slice(&0u32.to_le_bytes()); // chunk_size
    buf.extend_from_slice(&0u32.to_le_bytes()); // filter_mask
    for _ in 0..ndims {
        write_offset(&mut buf, u64::MAX, offset_size);
    }

    buf
}

// --- ChunkInfo collection tests ---

#[test]
fn collect_two_chunks_from_leaf() {
    let ndims = 2; // rank+1 for 1D dataset
    let os: u8 = 8;

    let chunks = vec![
        ChunkInfo {
            chunk_size: 80,
            filter_mask: 0,
            offsets: vec![0, 0],
            address: 0x1000,
        },
        ChunkInfo {
            chunk_size: 80,
            filter_mask: 0,
            offsets: vec![10, 0],
            address: 0x2000,
        },
    ];

    let btree = build_chunk_btree_leaf(&chunks, ndims, os);
    let mut file_data = vec![0u8; 0x3000];
    file_data[..btree.len()].copy_from_slice(&btree);

    let result = collect_chunk_info(&file_data, 0, ndims, os, os).unwrap();
    assert_eq!(result.len(), 2);
    assert_eq!(result[0].address, 0x1000);
    assert_eq!(result[0].offsets, vec![0, 0]);
    assert_eq!(result[0].chunk_size, 80);
    assert_eq!(result[1].address, 0x2000);
    assert_eq!(result[1].offsets, vec![10, 0]);
}

#[test]
fn collect_three_chunks() {
    let ndims = 2;
    let os: u8 = 8;

    let chunks = vec![
        ChunkInfo {
            chunk_size: 40,
            filter_mask: 0,
            offsets: vec![0, 0],
            address: 0x100,
        },
        ChunkInfo {
            chunk_size: 40,
            filter_mask: 0,
            offsets: vec![5, 0],
            address: 0x200,
        },
        ChunkInfo {
            chunk_size: 40,
            filter_mask: 0,
            offsets: vec![10, 0],
            address: 0x300,
        },
    ];

    let btree = build_chunk_btree_leaf(&chunks, ndims, os);
    let mut file_data = vec![0u8; 0x1000];
    file_data[..btree.len()].copy_from_slice(&btree);

    let result = collect_chunk_info(&file_data, 0, ndims, os, os).unwrap();
    assert_eq!(result.len(), 3);
    assert_eq!(result[0].address, 0x100);
    assert_eq!(result[1].address, 0x200);
    assert_eq!(result[2].address, 0x300);
}

#[test]
fn collect_empty_btree() {
    let ndims = 2;
    let os: u8 = 8;
    let btree = build_chunk_btree_leaf(&[], ndims, os);
    let mut file_data = vec![0u8; 0x1000];
    file_data[..btree.len()].copy_from_slice(&btree);

    let result = collect_chunk_info(&file_data, 0, ndims, os, os).unwrap();
    assert_eq!(result.len(), 0);
}

// --- Chunked read tests (synthetic) ---


/// Build a synthetic file with a B-tree and chunk data for a 1D uncompressed dataset.
fn build_1d_chunked_file(
    values: &[f64],
    chunk_size_elems: usize,
) -> (Vec<u8>, DataLayout, Dataspace) {
    let os: u8 = 8;
    let elem_size = 8usize;
    let ndims = 2; // rank(1) + 1
    let total = values.len();

    // Place chunk data starting at offset 0x2000
    let mut file_data = vec![0u8; 0x10000];
    let mut chunk_infos = Vec::new();
    let mut data_offset = 0x2000usize;

    let mut start = 0;
    while start < total {
        let end = (start + chunk_size_elems).min(total);
        let chunk_bytes = chunk_size_elems * elem_size; // full chunk allocation

        // Write chunk data (full chunk size, padding with zeros)
        for i in start..end {
            let byte_offset = data_offset + (i - start) * elem_size;
            file_data[byte_offset..byte_offset + 8].copy_from_slice(&values[i].to_le_bytes());
        }

        chunk_infos.push(ChunkInfo {
            chunk_size: chunk_bytes as u32,
            filter_mask: 0,
            offsets: vec![start as u64, 0],
            address: data_offset as u64,
        });

        data_offset += chunk_bytes;
        start += chunk_size_elems;
    }

    // Build B-tree at offset 0x100
    let btree = build_chunk_btree_leaf(&chunk_infos, ndims, os);
    let btree_addr = 0x100usize;
    file_data[btree_addr..btree_addr + btree.len()].copy_from_slice(&btree);

    let layout = DataLayout::Chunked {
        chunk_dimensions: vec![chunk_size_elems as u32, elem_size as u32],
        btree_address: Some(btree_addr as u64),
        version: 3,
        chunk_index_type: None,
        single_chunk_filtered_size: None,
        single_chunk_filter_mask: None,
    };

    let dataspace = Dataspace {
        space_type: DataspaceType::Simple,
        rank: 1,
        dimensions: vec![total as u64],
        max_dimensions: None,
    };

    (file_data, layout, dataspace)
}

#[test]
fn read_1d_two_chunks_no_compression() {
    let values: Vec<f64> = (0..20).map(|i| i as f64).collect();
    let (file_data, layout, dataspace) = build_1d_chunked_file(&values, 10);
    let datatype = Datatype::f64_le();

    let raw =
        read_chunked_data(&file_data, &layout, &dataspace, &datatype, None, 8, 8).unwrap();
    assert_eq!(raw.len(), 20 * 8);

    // Verify values
    for i in 0..20 {
        let val = f64::from_le_bytes(raw[i * 8..(i + 1) * 8].try_into().unwrap());
        assert_eq!(val, i as f64);
    }
}

#[test]
fn read_1d_three_chunks_partial_last() {
    // 25 elements, chunk size 10 => 3 chunks, last has only 5 valid
    let values: Vec<f64> = (0..25).map(|i| i as f64).collect();
    let (file_data, layout, dataspace) = build_1d_chunked_file(&values, 10);
    let datatype = Datatype::f64_le();

    let raw =
        read_chunked_data(&file_data, &layout, &dataspace, &datatype, None, 8, 8).unwrap();
    assert_eq!(raw.len(), 25 * 8);

    for i in 0..25 {
        let val = f64::from_le_bytes(raw[i * 8..(i + 1) * 8].try_into().unwrap());
        assert_eq!(val, i as f64, "mismatch at index {i}");
    }
}

#[test]
fn read_1d_two_chunks_with_deflate() {

    let os: u8 = 8;
    let elem_size = 8usize;
    let ndims = 2;
    let chunk_elems = 10usize;
    let total = 20usize;

    let pipeline = FilterPipeline {
        version: 2,
        filters: vec![FilterDescription {
            filter_id: FILTER_DEFLATE,
            name: None,
            flags: 0,
            client_data: vec![6],
        }],
    };

    let values: Vec<f64> = (0..total).map(|i| i as f64).collect();
    let mut file_data = vec![0u8; 0x10000];
    let mut chunk_infos = Vec::new();
    let mut data_offset = 0x2000usize;

    for chunk_idx in 0..2 {
        let start = chunk_idx * chunk_elems;
        let mut chunk_bytes = Vec::new();
        for i in start..start + chunk_elems {
            chunk_bytes.extend_from_slice(&values[i].to_le_bytes());
        }
        let compressed = compress_chunk(&chunk_bytes, &pipeline, elem_size as u32).unwrap();

        file_data[data_offset..data_offset + compressed.len()].copy_from_slice(&compressed);

        chunk_infos.push(ChunkInfo {
            chunk_size: compressed.len() as u32,
            filter_mask: 0,
            offsets: vec![start as u64, 0],
            address: data_offset as u64,
        });

        data_offset += compressed.len() + 16; // some padding
    }

    let btree = build_chunk_btree_leaf(&chunk_infos, ndims, os);
    let btree_addr = 0x100usize;
    file_data[btree_addr..btree_addr + btree.len()].copy_from_slice(&btree);

    let layout = DataLayout::Chunked {
        chunk_dimensions: vec![chunk_elems as u32, elem_size as u32],
        btree_address: Some(btree_addr as u64),
        version: 3,
        chunk_index_type: None,
        single_chunk_filtered_size: None,
        single_chunk_filter_mask: None,
    };
    let dataspace = Dataspace {
        space_type: DataspaceType::Simple,
        rank: 1,
        dimensions: vec![total as u64],
        max_dimensions: None,
    };
    let datatype = Datatype::f64_le();

    let raw = read_chunked_data(
        &file_data,
        &layout,
        &dataspace,
        &datatype,
        Some(&pipeline),
        8,
        8,
    )
    .unwrap();

    for i in 0..total {
        let val = f64::from_le_bytes(raw[i * 8..(i + 1) * 8].try_into().unwrap());
        assert_eq!(val, i as f64, "mismatch at index {i}");
    }
}

#[test]
fn read_2d_four_chunks() {
    // 4x6 dataset with chunk size 2x3 => 4 chunks
    let os: u8 = 8;
    let elem_size = 4usize; // f32
    let ndims = 3; // rank(2) + 1
    let ds_dims = [4usize, 6];
    let chunk_dims = [2usize, 3];

    let values: Vec<f32> = (0..24).map(|i| i as f32).collect();
    let mut file_data = vec![0u8; 0x10000];
    let mut chunk_infos = Vec::new();
    let mut data_offset = 0x2000usize;

    // Generate chunks: (0,0), (0,3), (2,0), (2,3)
    for row_start in (0..ds_dims[0]).step_by(chunk_dims[0]) {
        for col_start in (0..ds_dims[1]).step_by(chunk_dims[1]) {
            let mut chunk_bytes = Vec::new();
            for r in 0..chunk_dims[0] {
                for c in 0..chunk_dims[1] {
                    let gr = row_start + r;
                    let gc = col_start + c;
                    let val = if gr < ds_dims[0] && gc < ds_dims[1] {
                        values[gr * ds_dims[1] + gc]
                    } else {
                        0.0
                    };
                    chunk_bytes.extend_from_slice(&val.to_le_bytes());
                }
            }

            let chunk_size = chunk_bytes.len();
            file_data[data_offset..data_offset + chunk_size].copy_from_slice(&chunk_bytes);

            chunk_infos.push(ChunkInfo {
                chunk_size: chunk_size as u32,
                filter_mask: 0,
                offsets: vec![row_start as u64, col_start as u64, 0],
                address: data_offset as u64,
            });

            data_offset += chunk_size + 8;
        }
    }

    let btree = build_chunk_btree_leaf(&chunk_infos, ndims, os);
    let btree_addr = 0x100usize;
    file_data[btree_addr..btree_addr + btree.len()].copy_from_slice(&btree);

    let layout = DataLayout::Chunked {
        chunk_dimensions: vec![chunk_dims[0] as u32, chunk_dims[1] as u32, elem_size as u32],
        btree_address: Some(btree_addr as u64),
        version: 3,
        chunk_index_type: None,
        single_chunk_filtered_size: None,
        single_chunk_filter_mask: None,
    };
    let dataspace = Dataspace {
        space_type: DataspaceType::Simple,
        rank: 2,
        dimensions: vec![ds_dims[0] as u64, ds_dims[1] as u64],
        max_dimensions: None,
    };
    let datatype = Datatype::f32_le();

    let raw =
        read_chunked_data(&file_data, &layout, &dataspace, &datatype, None, 8, 8).unwrap();
    assert_eq!(raw.len(), 24 * 4);

    for i in 0..24 {
        let val = f32::from_le_bytes(raw[i * 4..(i + 1) * 4].try_into().unwrap());
        assert_eq!(val, i as f32, "mismatch at element {i}");
    }
}

#[test]
fn wrong_node_type_error() {
    // Build a type-0 B-tree and try to collect chunk info
    let mut buf = Vec::new();
    buf.extend_from_slice(b"TREE");
    buf.push(0); // type 0, not 1
    buf.push(0);
    buf.extend_from_slice(&0u16.to_le_bytes());
    buf.extend_from_slice(&[0xFF; 16]); // siblings
    // final key
    buf.extend_from_slice(&[0u8; 24]);

    let mut file_data = vec![0u8; 512];
    file_data[..buf.len()].copy_from_slice(&buf);

    let err = collect_chunk_info(&file_data, 0, 2, 8, 8).unwrap_err();
    assert_eq!(err, FormatError::InvalidBTreeNodeType(0));
}

// --- Implicit chunk generation tests ---

#[test]
fn implicit_chunks_1d_five_chunks() {
    let chunks = generate_implicit_chunks(
        0x1000,
        &[100],
        &[20],
        8, // f64
    );
    assert_eq!(chunks.len(), 5);
    let chunk_byte_size = 20 * 8;
    for (i, c) in chunks.iter().enumerate() {
        assert_eq!(c.address, 0x1000 + i as u64 * chunk_byte_size as u64);
        assert_eq!(c.offsets, vec![i as u64 * 20]);
        assert_eq!(c.filter_mask, 0);
        assert_eq!(c.chunk_size, chunk_byte_size as u32);
    }
}

#[test]
fn implicit_chunks_2d() {
    // 10x6 dataset, 4x3 chunks => ceil(10/4)=3, ceil(6/3)=2 => 6 chunks
    let chunks = generate_implicit_chunks(
        0x2000,
        &[10, 6],
        &[4, 3],
        4, // f32
    );
    assert_eq!(chunks.len(), 6);
    let chunk_byte_size = 4 * 3 * 4;
    // Row-major: (0,0), (0,3), (4,0), (4,3), (8,0), (8,3)
    assert_eq!(chunks[0].offsets, vec![0, 0]);
    assert_eq!(chunks[1].offsets, vec![0, 3]);
    assert_eq!(chunks[2].offsets, vec![4, 0]);
    assert_eq!(chunks[3].offsets, vec![4, 3]);
    assert_eq!(chunks[4].offsets, vec![8, 0]);
    assert_eq!(chunks[5].offsets, vec![8, 3]);
    for (i, c) in chunks.iter().enumerate() {
        assert_eq!(c.address, 0x2000 + i as u64 * chunk_byte_size as u64);
    }
}

#[test]
fn implicit_chunks_partial_last() {
    // 25 elements, chunk size 10 => 3 chunks (last partial)
    let chunks = generate_implicit_chunks(0x0, &[25], &[10], 8);
    assert_eq!(chunks.len(), 3);
    assert_eq!(chunks[0].offsets, vec![0]);
    assert_eq!(chunks[1].offsets, vec![10]);
    assert_eq!(chunks[2].offsets, vec![20]);
}

// --- V4 single chunk synthetic test ---

#[test]
fn read_v4_single_chunk_synthetic() {
    // Build a synthetic v4 single chunk dataset (no filters)
    let values: Vec<f64> = vec![10.0, 20.0, 30.0];
    let elem_size = 8usize;
    let chunk_elems = 3usize;

    let mut file_data = vec![0u8; 0x2000];
    let data_addr = 0x1000usize;
    for (i, &v) in values.iter().enumerate() {
        file_data[data_addr + i * elem_size..data_addr + (i + 1) * elem_size]
            .copy_from_slice(&v.to_le_bytes());
    }

    let layout = DataLayout::Chunked {
        chunk_dimensions: vec![chunk_elems as u32, elem_size as u32],
        btree_address: Some(data_addr as u64),
        version: 4,
        chunk_index_type: Some(1),
        single_chunk_filtered_size: None,
        single_chunk_filter_mask: None,
    };
    let dataspace = Dataspace {
        space_type: DataspaceType::Simple,
        rank: 1,
        dimensions: vec![3],
        max_dimensions: None,
    };
    let datatype = Datatype::f64_le();

    let raw =
        read_chunked_data(&file_data, &layout, &dataspace, &datatype, None, 8, 8).unwrap();
    assert_eq!(raw.len(), 24);
    for i in 0..3 {
        let val = f64::from_le_bytes(raw[i * 8..(i + 1) * 8].try_into().unwrap());
        assert_eq!(val, values[i]);
    }
}

// --- Cached read tests ---


#[test]
fn cached_read_populates_index_and_returns_correct_data() {
    let values: Vec<f64> = (0..20).map(|i| i as f64).collect();
    let (file_data, layout, dataspace) = build_1d_chunked_file(&values, 10);
    let datatype = Datatype::f64_le();
    let mut cache = ChunkCache::new();

    assert!(!cache.has_index());
    let raw = read_chunked_data_cached(
        &file_data, &layout, &dataspace, &datatype, None, 8, 8, &mut cache,
    )
    .unwrap();
    assert!(cache.has_index());
    assert_eq!(raw.len(), 20 * 8);
    for i in 0..20 {
        let val = f64::from_le_bytes(raw[i * 8..(i + 1) * 8].try_into().unwrap());
        assert_eq!(val, i as f64);
    }
}

#[test]
fn cached_read_second_call_uses_cache() {
    let values: Vec<f64> = (0..20).map(|i| i as f64).collect();
    let (file_data, layout, dataspace) = build_1d_chunked_file(&values, 10);
    let datatype = Datatype::f64_le();
    let mut cache = ChunkCache::new();

    // First read — populates index + decompressed cache
    let raw1 = read_chunked_data_cached(
        &file_data, &layout, &dataspace, &datatype, None, 8, 8, &mut cache,
    )
    .unwrap();
    assert!(cache.has_index());
    assert!(cache.cached_chunk_count() > 0);

    // Second read — should hit the decompressed cache
    let raw2 = read_chunked_data_cached(
        &file_data, &layout, &dataspace, &datatype, None, 8, 8, &mut cache,
    )
    .unwrap();
    assert_eq!(raw1, raw2);
}

#[test]
fn cached_read_with_partial_last_chunk() {
    let values: Vec<f64> = (0..25).map(|i| i as f64).collect();
    let (file_data, layout, dataspace) = build_1d_chunked_file(&values, 10);
    let datatype = Datatype::f64_le();
    let mut cache = ChunkCache::new();

    let raw = read_chunked_data_cached(
        &file_data, &layout, &dataspace, &datatype, None, 8, 8, &mut cache,
    )
    .unwrap();
    assert_eq!(raw.len(), 25 * 8);
    for i in 0..25 {
        let val = f64::from_le_bytes(raw[i * 8..(i + 1) * 8].try_into().unwrap());
        assert_eq!(val, i as f64, "mismatch at index {i}");
    }
}

// --- Sweep-aware read tests ---

#[test]
fn sweep_read_returns_correct_data() {
    let values: Vec<f64> = (0..20).map(|i| i as f64).collect();
    let (file_data, layout, dataspace) = build_1d_chunked_file(&values, 10);
    let datatype = Datatype::f64_le();
    let mut cache = ChunkCache::new();
    let mut sweep = SweepContext::with_defaults();

    let raw = read_chunked_data_sweep(
        &file_data, &layout, &dataspace, &datatype, None, 8, 8, &mut cache, &mut sweep,
    )
    .unwrap();
    assert_eq!(raw.len(), 20 * 8);
    for i in 0..20 {
        let val = f64::from_le_bytes(raw[i * 8..(i + 1) * 8].try_into().unwrap());
        assert_eq!(val, i as f64);
    }
}

#[test]
fn sweep_read_populates_sweep_context() {
    let values: Vec<f64> = (0..20).map(|i| i as f64).collect();
    let (file_data, layout, dataspace) = build_1d_chunked_file(&values, 10);
    let datatype = Datatype::f64_le();
    let mut cache = ChunkCache::new();
    let mut sweep = SweepContext::with_defaults();

    read_chunked_data_sweep(
        &file_data, &layout, &dataspace, &datatype, None, 8, 8, &mut cache, &mut sweep,
    )
    .unwrap();

    // After reading 2 chunks (offsets [0] and [10]), history should be populated
    assert!(!sweep.history.is_empty());
}

#[test]
fn sweep_context_unit_test() {
    let mut ctx = SweepContext::with_defaults();
    ctx.record(vec![0, 0], 2);
    ctx.record(vec![0, 10], 2);
    ctx.record(vec![0, 20], 2);
    assert_eq!(ctx.direction, "row_major");
    assert!(!ctx.predicted_next.is_empty());
    assert_eq!(ctx.predicted_next[0], vec![0, 30]);
}

#[test]
fn sweep_context_random() {
    let mut ctx = SweepContext::with_defaults();
    ctx.record(vec![0, 0], 2);
    ctx.record(vec![30, 20], 2);
    ctx.record(vec![10, 0], 2);
    assert_eq!(ctx.direction, "random");
    assert!(ctx.predicted_next.is_empty());
}

#[test]
fn sweep_read_access_stats() {
    let values: Vec<f64> = (0..20).map(|i| i as f64).collect();
    let (file_data, layout, dataspace) = build_1d_chunked_file(&values, 10);
    let datatype = Datatype::f64_le();
    let mut cache = ChunkCache::new();
    let mut sweep = SweepContext::with_defaults();

    read_chunked_data_sweep(
        &file_data, &layout, &dataspace, &datatype, None, 8, 8, &mut cache, &mut sweep,
    )
    .unwrap();

    let stats = cache.access_stats();
    // We accessed 2 chunks; the second should be sequential to the first
    assert!(stats.sequential_count > 0 || stats.random_count > 0);
}

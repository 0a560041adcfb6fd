//! Tests of the module `chunked_write`.

use rustyhdf5_format::chunk_cache::CACHE_LINE_SIZE;
use rustyhdf5_format::chunked_read::read_chunked_data;
use rustyhdf5_format::chunked_write::{
    ChunkOptions, WrittenChunk, align_chunk_offset, build_chunked_data_at,
    build_chunked_data_at_ext, build_extensible_array_at, build_fixed_array_at,
    serialize_v4_extensible_array, serialize_v4_fixed_array, serialize_v4_single_chunk_pub,
    split_into_chunks,
};
use rustyhdf5_format::data_layout::DataLayout;
use rustyhdf5_format::dataspace::{Dataspace, DataspaceType};
use rustyhdf5_format::datatype::Datatype;
use rustyhdf5_format::filter_pipeline::{FILTER_DEFLATE, FILTER_FLETCHER32, FILTER_SHUFFLE};

fn f64_to_bytes(data: &[f64]) -> Vec<u8> {
    let mut b = Vec::with_capacity(data.len() * 8);
    for &v in data {
        b.extend_from_slice(&v.to_le_bytes());
    }
    b
}

fn bytes_to_f64(data: &[u8]) -> Vec<f64> {
    data.chunks(8)
        .map(|c| f64::from_le_bytes(c.try_into().unwrap()))
        .collect()
}

/// Helper: build a chunked file blob and read it back using read_chunked_data
fn roundtrip_chunked(
    values: &[f64],
    shape: &[u64],
    chunk_dims: &[u64],
    options: &ChunkOptions,
) -> Vec<f64> {
    let raw = f64_to_bytes(values);
    let base_address = 0x1000u64;
    let result =
        build_chunked_data_at(&raw, shape, chunk_dims, 8, options, base_address).unwrap();

    // Build a fake file buffer
    let file_size = base_address as usize + result.data_bytes.len();
    let mut file_data = vec![0u8; file_size];
    file_data[base_address as usize..].copy_from_slice(&result.data_bytes);

    // Parse layout
    let layout = DataLayout::parse(&result.layout_message, 8, 8).unwrap();
    let dataspace = Dataspace {
        space_type: DataspaceType::Simple,
        rank: shape.len() as u8,
        dimensions: shape.to_vec(),
        max_dimensions: None,
    };
    let datatype = Datatype::f64_le();

    // Parse pipeline if present
    let pipeline = result
        .pipeline_message
        .as_ref()
        .map(|pm| rustyhdf5_format::filter_pipeline::FilterPipeline::parse(pm).unwrap());

    let output = read_chunked_data(
        &file_data,
        &layout,
        &dataspace,
        &datatype,
        pipeline.as_ref(),
        8,
        8,
    )
    .unwrap();

    bytes_to_f64(&output)
}

#[test]
fn split_1d_single_chunk() {
    let data = f64_to_bytes(&[1.0, 2.0, 3.0]);
    let result = split_into_chunks(&data, &[3], &[3], 8);
    assert_eq!(result.len(), 1);
    assert_eq!(result[0].0, vec![0]);
    assert_eq!(bytes_to_f64(&result[0].1), vec![1.0, 2.0, 3.0]);
}

#[test]
fn split_1d_multiple_chunks() {
    let values: Vec<f64> = (0..10).map(|i| i as f64).collect();
    let data = f64_to_bytes(&values);
    let result = split_into_chunks(&data, &[10], &[4], 8);
    assert_eq!(result.len(), 3); // ceil(10/4) = 3
    assert_eq!(result[0].0, vec![0]);
    assert_eq!(result[1].0, vec![4]);
    assert_eq!(result[2].0, vec![8]);
    assert_eq!(bytes_to_f64(&result[0].1), vec![0.0, 1.0, 2.0, 3.0]);
    assert_eq!(bytes_to_f64(&result[1].1), vec![4.0, 5.0, 6.0, 7.0]);
    // Last chunk: 2 valid + 2 padding zeros
    assert_eq!(bytes_to_f64(&result[2].1), vec![8.0, 9.0, 0.0, 0.0]);
}

#[test]
fn split_2d_chunks() {
    // 4x4 dataset, 2x2 chunks -> 4 chunks
    let values: Vec<f64> = (0..16).map(|i| i as f64).collect();
    let data = f64_to_bytes(&values);
    let result = split_into_chunks(&data, &[4, 4], &[2, 2], 8);
    assert_eq!(result.len(), 4);
    assert_eq!(result[0].0, vec![0, 0]);
    assert_eq!(result[1].0, vec![0, 2]);
    assert_eq!(result[2].0, vec![2, 0]);
    assert_eq!(result[3].0, vec![2, 2]);
    // chunk (0,0): elements [0,1,4,5]
    assert_eq!(bytes_to_f64(&result[0].1), vec![0.0, 1.0, 4.0, 5.0]);
    // chunk (0,2): elements [2,3,6,7]
    assert_eq!(bytes_to_f64(&result[1].1), vec![2.0, 3.0, 6.0, 7.0]);
}

#[test]
fn roundtrip_1d_single_chunk_no_compression() {
    let values: Vec<f64> = (0..10).map(|i| i as f64).collect();
    let options = ChunkOptions {
        chunk_dims: Some(vec![10]),
        ..Default::default()
    };
    let result = roundtrip_chunked(&values, &[10], &[10], &options);
    assert_eq!(result, values);
}

#[test]
fn roundtrip_1d_single_chunk_deflate() {
    let values: Vec<f64> = (0..100).map(|i| i as f64).collect();
    let options = ChunkOptions {
        chunk_dims: Some(vec![100]),
        deflate_level: Some(6),
        ..Default::default()
    };
    let result = roundtrip_chunked(&values, &[100], &[100], &options);
    assert_eq!(result, values);
}

#[test]
fn roundtrip_1d_multi_chunk_no_compression() {
    let values: Vec<f64> = (0..20).map(|i| i as f64).collect();
    let options = ChunkOptions {
        chunk_dims: Some(vec![8]),
        ..Default::default()
    };
    let result = roundtrip_chunked(&values, &[20], &[8], &options);
    assert_eq!(result, values);
}

#[test]
fn roundtrip_1d_multi_chunk_deflate() {
    let values: Vec<f64> = (0..100).map(|i| i as f64).collect();
    let options = ChunkOptions {
        chunk_dims: Some(vec![20]),
        deflate_level: Some(6),
        ..Default::default()
    };
    let result = roundtrip_chunked(&values, &[100], &[20], &options);
    assert_eq!(result, values);
}

#[test]
fn roundtrip_1d_shuffle_deflate() {
    let values: Vec<f64> = (0..100).map(|i| i as f64).collect();
    let options = ChunkOptions {
        chunk_dims: Some(vec![50]),
        deflate_level: Some(6),
        shuffle: true,
        ..Default::default()
    };
    let result = roundtrip_chunked(&values, &[100], &[50], &options);
    assert_eq!(result, values);
}

#[test]
fn roundtrip_2d_chunks() {
    // 6x4 dataset, 3x2 chunks
    let values: Vec<f64> = (0..24).map(|i| i as f64).collect();
    let options = ChunkOptions {
        chunk_dims: Some(vec![3, 2]),
        ..Default::default()
    };
    let result = roundtrip_chunked(&values, &[6, 4], &[3, 2], &options);
    assert_eq!(result, values);
}

#[test]
fn align_chunk_offset_values() {
    let cl = CACHE_LINE_SIZE as u64;
    assert_eq!(align_chunk_offset(0), 0);
    assert_eq!(align_chunk_offset(1), cl);
    assert_eq!(align_chunk_offset(cl), cl);
    assert_eq!(align_chunk_offset(cl + 1), cl * 2);
    assert_eq!(align_chunk_offset(cl * 10), cl * 10);
}

#[test]
fn chunk_addresses_are_cache_aligned() {
    let values: Vec<f64> = (0..100).map(|i| i as f64).collect();
    let raw = f64_to_bytes(&values);
    let base_address = 0x1000u64;
    // Ensure base is aligned for this test
    let base_address = align_chunk_offset(base_address);
    let options = ChunkOptions {
        chunk_dims: Some(vec![20]),
        ..Default::default()
    };
    let result = build_chunked_data_at(&raw, &[100], &[20], 8, &options, base_address).unwrap();

    // Parse layout to get chunk addresses (via roundtrip read)
    let file_size = base_address as usize + result.data_bytes.len();
    let mut file_data = vec![0u8; file_size];
    file_data[base_address as usize..].copy_from_slice(&result.data_bytes);

    let layout = DataLayout::parse(&result.layout_message, 8, 8).unwrap();
    let dataspace = Dataspace {
        space_type: DataspaceType::Simple,
        rank: 1,
        dimensions: vec![100],
        max_dimensions: None,
    };
    let datatype = Datatype::f64_le();

    // Verify data roundtrips correctly
    let output =
        read_chunked_data(&file_data, &layout, &dataspace, &datatype, None, 8, 8).unwrap();
    assert_eq!(bytes_to_f64(&output), values);
}

#[test]
fn chunk_options_auto_dims() {
    let options = ChunkOptions {
        chunk_dims: None,
        deflate_level: Some(6),
        ..Default::default()
    };
    let dims = options.resolve_chunk_dims(&[100, 50]);
    assert_eq!(dims, vec![100, 50]);
}

#[test]
fn chunk_options_pipeline_deflate() {
    let options = ChunkOptions {
        deflate_level: Some(6),
        ..Default::default()
    };
    let pl = options.build_pipeline(8).unwrap();
    assert_eq!(pl.filters.len(), 1);
    assert_eq!(pl.filters[0].filter_id, FILTER_DEFLATE);
}

#[test]
fn chunk_options_pipeline_shuffle_deflate_fletcher32() {
    let options = ChunkOptions {
        deflate_level: Some(6),
        shuffle: true,
        fletcher32: true,
        ..Default::default()
    };
    let pl = options.build_pipeline(8).unwrap();
    assert_eq!(pl.filters.len(), 3);
    assert_eq!(pl.filters[0].filter_id, FILTER_SHUFFLE);
    assert_eq!(pl.filters[1].filter_id, FILTER_DEFLATE);
    assert_eq!(pl.filters[2].filter_id, FILTER_FLETCHER32);
}

#[test]
fn serialize_v4_single_chunk_no_filters_roundtrip() {
    let msg = serialize_v4_single_chunk_pub(&[20], 0x1000, None, None, 8, 8);
    let layout = DataLayout::parse(&msg, 8, 8).unwrap();
    match layout {
        DataLayout::Chunked {
            chunk_dimensions,
            btree_address,
            version,
            chunk_index_type,
            single_chunk_filtered_size,
            single_chunk_filter_mask,
        } => {
            assert_eq!(version, 4);
            assert_eq!(chunk_index_type, Some(1));
            assert_eq!(chunk_dimensions, vec![20, 8]);
            assert_eq!(btree_address, Some(0x1000));
            assert_eq!(single_chunk_filtered_size, None);
            assert_eq!(single_chunk_filter_mask, None);
        }
        _ => panic!("expected chunked layout"),
    }
}

#[test]
fn serialize_v4_single_chunk_with_filters_roundtrip() {
    let msg = serialize_v4_single_chunk_pub(&[100], 0x2000, Some(500), Some(0), 8, 8);
    let layout = DataLayout::parse(&msg, 8, 8).unwrap();
    match layout {
        DataLayout::Chunked {
            btree_address,
            single_chunk_filtered_size,
            single_chunk_filter_mask,
            ..
        } => {
            assert_eq!(btree_address, Some(0x2000));
            assert_eq!(single_chunk_filtered_size, Some(500));
            assert_eq!(single_chunk_filter_mask, Some(0));
        }
        _ => panic!("expected chunked layout"),
    }
}

#[test]
fn serialize_v4_fixed_array_roundtrip() {
    let msg = serialize_v4_fixed_array(&[20], 0x3000, 8, 8, 4);
    let layout = DataLayout::parse(&msg, 8, 8).unwrap();
    match layout {
        DataLayout::Chunked {
            version,
            chunk_index_type,
            btree_address,
            chunk_dimensions,
            ..
        } => {
            assert_eq!(version, 4);
            assert_eq!(chunk_index_type, Some(3));
            assert_eq!(btree_address, Some(0x3000));
            assert_eq!(chunk_dimensions, vec![20, 8]);
        }
        _ => panic!("expected chunked layout"),
    }
}

#[test]
fn build_fixed_array_valid_structure() {
    let chunks = vec![
        WrittenChunk {
            address: 0x1000,
            compressed_size: 160,
            raw_size: 160,
            filter_mask: 0,
        },
        WrittenChunk {
            address: 0x10A0,
            compressed_size: 160,
            raw_size: 160,
            filter_mask: 0,
        },
    ];
    let fa = build_fixed_array_at(&chunks, 8, 8, false, 0x2000);
    // Should start with FAHD
    assert_eq!(&fa[0..4], b"FAHD");
    // FAHD size = 4+1+1+1+1+8+8+4 = 28
    // FADB starts at offset 28
    assert_eq!(&fa[28..32], b"FADB");
}

// ---- Extensible Array tests ----

#[test]
fn serialize_v4_extensible_array_roundtrip() {
    let msg = serialize_v4_extensible_array(&[10], 0x4000, 8, 8);
    let layout = DataLayout::parse(&msg, 8, 8).unwrap();
    match layout {
        DataLayout::Chunked {
            version,
            chunk_index_type,
            btree_address,
            chunk_dimensions,
            ..
        } => {
            assert_eq!(version, 4);
            assert_eq!(chunk_index_type, Some(4));
            assert_eq!(btree_address, Some(0x4000));
            assert_eq!(chunk_dimensions, vec![10, 8]);
        }
        _ => panic!("expected chunked layout"),
    }
}

#[test]
fn build_extensible_array_valid_structure() {
    let chunks = vec![
        WrittenChunk {
            address: 0x1000,
            compressed_size: 80,
            raw_size: 80,
            filter_mask: 0,
        },
        WrittenChunk {
            address: 0x1050,
            compressed_size: 80,
            raw_size: 80,
            filter_mask: 0,
        },
    ];
    let ea = build_extensible_array_at(&chunks, 8, 8, false, 0x2000);
    assert_eq!(&ea[0..4], b"EAHD");
    // Find EAIB after EAHD: 12 fixed + 6*8 stats + 8 addr + 4 checksum = 72
    let aehd_size = 4 + 1 + 1 + 1 + 1 + 1 + 1 + 1 + 1 + 6 * 8 + 8 + 4;
    assert_eq!(&ea[aehd_size..aehd_size + 4], b"EAIB");
}

/// Helper: roundtrip with EA (maxshape)
fn roundtrip_ea(
    values: &[f64],
    shape: &[u64],
    chunk_dims: &[u64],
    maxshape: &[u64],
) -> Vec<f64> {
    let raw = f64_to_bytes(values);
    let base_address = 0x1000u64;
    let options = ChunkOptions {
        chunk_dims: Some(chunk_dims.to_vec()),
        ..Default::default()
    };
    let result = build_chunked_data_at_ext(
        &raw,
        shape,
        chunk_dims,
        8,
        &options,
        base_address,
        Some(maxshape),
    )
    .unwrap();

    let file_size = base_address as usize + result.data_bytes.len();
    let mut file_data = vec![0u8; file_size];
    file_data[base_address as usize..].copy_from_slice(&result.data_bytes);

    let layout = DataLayout::parse(&result.layout_message, 8, 8).unwrap();
    // Verify it uses EA index
    match &layout {
        DataLayout::Chunked {
            chunk_index_type, ..
        } => {
            assert_eq!(*chunk_index_type, Some(4), "expected EA index type");
        }
        _ => panic!("expected chunked layout"),
    }

    let dataspace = Dataspace {
        space_type: DataspaceType::Simple,
        rank: shape.len() as u8,
        dimensions: shape.to_vec(),
        max_dimensions: Some(maxshape.to_vec()),
    };
    let datatype = Datatype::f64_le();

    let output =
        read_chunked_data(&file_data, &layout, &dataspace, &datatype, None, 8, 8).unwrap();

    bytes_to_f64(&output)
}

#[test]
fn ea_roundtrip_1d_inline_only() {
    let values: Vec<f64> = (0..10).map(|i| i as f64).collect();
    let result = roundtrip_ea(&values, &[10], &[10], &[u64::MAX]);
    assert_eq!(result, values);
}

#[test]
fn ea_roundtrip_1d_multi_chunks() {
    let values: Vec<f64> = (0..20).map(|i| i as f64).collect();
    let result = roundtrip_ea(&values, &[20], &[5], &[u64::MAX]);
    assert_eq!(result, values);
}

#[test]
fn ea_roundtrip_1d_many_chunks() {
    let values: Vec<f64> = (0..100).map(|i| i as f64).collect();
    let result = roundtrip_ea(&values, &[100], &[10], &[u64::MAX]);
    assert_eq!(result, values);
}

//! Tests of lane partitioning and parallel reading.

use rustyhdf5_format::chunk_cache::ChunkInfo;
use rustyhdf5_format::chunked_read::decompress_all_chunks_with_stats;
use rustyhdf5_format::error::FormatError;
use rustyhdf5_format::filter_pipeline::{FilterDescription, FilterPipeline, FILTER_DEFLATE};
use rustyhdf5_format::filters::compress_chunk;
use rustyhdf5_format::lane_partition::{partition_chunks, LaneStats, PartitionStats};
use rustyhdf5_format::parallel_read::{
    decompress_chunks_lane_partitioned, decompress_chunks_parallel, decompress_chunks_sequential,
    should_use_parallel,
};

fn deflate() -> FilterPipeline {
    FilterPipeline {
        version: 2,
        filters: vec![FilterDescription {
            filter_id: FILTER_DEFLATE,
            name: None,
            flags: 0,
            client_data: vec![6],
        }],
    }
}

/// A file with compressed chunks, the chunks, and their data.
fn file_with_chunks(count: usize) -> (Vec<u8>, Vec<ChunkInfo>, Vec<Vec<u8>>) {
    let mut file = vec![0u8; 16];
    let mut chunks = Vec::new();
    let mut data = Vec::new();
    for k in 0..count {
        let plain = vec![k as u8; 100 + k];
        let packed = compress_chunk(&plain, &deflate(), 1).unwrap();
        chunks.push(ChunkInfo {
            chunk_size: packed.len() as u32,
            filter_mask: 0,
            offsets: vec![k as u64],
            address: file.len() as u64,
        });
        file.extend_from_slice(&packed);
        data.push(plain);
    }
    (file, chunks, data)
}

#[test]
fn parallel_threshold() {
    assert!(!should_use_parallel(0));
    assert!(!should_use_parallel(4));
    assert!(should_use_parallel(5));
}

#[test]
fn partition_known_values() {
    assert_eq!(partition_chunks(5, 2, 0), vec![vec![0, 2, 4], vec![3, 1]]);
    assert_eq!(
        partition_chunks(8, 3, 42),
        vec![vec![1, 0, 7], vec![4, 2, 5], vec![6, 3]]
    );
}

#[test]
fn partition_is_complete_and_reproducible() {
    for (count, lanes, seed) in [(0, 3, 1), (1, 4, 9), (100, 7, 12345), (64, 64, 0), (10, 0, 5)] {
        let parts = partition_chunks(count, lanes, seed);
        assert_eq!(parts.len(), if lanes == 0 { 1 } else { lanes });
        let mut all: Vec<usize> = parts.iter().flatten().copied().collect();
        all.sort();
        assert_eq!(all, (0..count).collect::<Vec<usize>>());
        let longest = parts.iter().map(|p| p.len()).max().unwrap();
        let shortest = parts.iter().map(|p| p.len()).min().unwrap();
        assert!(longest <= shortest + 1);
        assert_eq!(parts, partition_chunks(count, lanes, seed));
    }
}

#[test]
fn sequential_parallel_and_lanes_agree() {
    let (file, chunks, data) = file_with_chunks(9);
    let p = deflate();
    assert_eq!(decompress_chunks_sequential(&file, &chunks, Some(&p), 100, 1).unwrap(), data);
    assert_eq!(decompress_chunks_parallel(&file, &chunks, &p, 100, 1).unwrap(), data);
    for lanes in [1, 2, 4, 20] {
        let (got, stats) =
            decompress_chunks_lane_partitioned(&file, &chunks, &p, 100, 1, 77, lanes).unwrap();
        assert_eq!(got, data);
        assert_eq!(stats.total_chunks, 9);
        assert_eq!(stats.per_lane.len(), lanes);
        let done: usize = stats.per_lane.iter().map(|s| s.chunks_processed).sum();
        assert_eq!(done, 9);
        let unpacked: u64 = stats.per_lane.iter().map(|s| s.decompressed_bytes).sum();
        assert_eq!(unpacked, data.iter().map(|d| d.len() as u64).sum::<u64>());
        let packed: u64 = stats.per_lane.iter().map(|s| s.compressed_bytes).sum();
        assert_eq!(packed, file.len() as u64 - 16);
    }
}

#[test]
fn filter_mask_leaves_a_chunk_as_it_is() {
    let (mut file, mut chunks, mut data) = file_with_chunks(5);
    chunks.push(ChunkInfo {
        chunk_size: 3,
        filter_mask: 1,
        offsets: vec![5],
        address: file.len() as u64,
    });
    file.extend_from_slice(&[7, 8, 9]);
    data.push(vec![7, 8, 9]);
    let p = deflate();
    assert_eq!(decompress_chunks_parallel(&file, &chunks, &p, 100, 1).unwrap(), data);
    let (got, _) =
        decompress_all_chunks_with_stats(&file, &chunks, &p, 100, 1, 3, 2).unwrap();
    assert_eq!(got, data);
}

#[test]
fn chunk_behind_the_end_is_an_error() {
    let (file, mut chunks, _) = file_with_chunks(3);
    chunks[1].address = file.len() as u64;
    let size = chunks[1].chunk_size as usize;
    let p = deflate();
    let expected =
        FormatError::UnexpectedEof { expected: file.len() + size, available: file.len() };
    assert_eq!(decompress_chunks_parallel(&file, &chunks, &p, 100, 1).unwrap_err(), expected);
    assert_eq!(
        decompress_chunks_sequential(&file, &chunks, Some(&p), 100, 1).unwrap_err(),
        expected
    );
    assert_eq!(
        decompress_chunks_lane_partitioned(&file, &chunks, &p, 100, 1, 1, 2).unwrap_err(),
        expected
    );
}

#[test]
fn fresh_statistics() {
    let stats = PartitionStats::new(2);
    assert_eq!(stats.total_chunks, 0);
    assert_eq!(stats.per_lane, vec![LaneStats::default(), LaneStats::default()]);
    let mut lane = LaneStats::default();
    lane.record_chunk(10, 40);
    lane.record_chunk(1, 2);
    assert_eq!(
        lane,
        LaneStats { chunks_processed: 2, compressed_bytes: 11, decompressed_bytes: 42 }
    );
}

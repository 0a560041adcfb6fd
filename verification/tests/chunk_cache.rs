//! Tests of the module `chunk_cache`.

use rustyhdf5_format::chunk_cache::{
    CACHE_LINE_SIZE, CacheAlignedBuffer, ChunkCache, ChunkInfo, align_to_cache_line,
};

fn make_chunk(offsets: Vec<u64>, address: u64, size: u32) -> ChunkInfo {
    ChunkInfo {
        chunk_size: size,
        filter_mask: 0,
        offsets,
        address,
    }
}

#[test]
fn index_populate_and_lookup() {
    let mut cache = ChunkCache::new();
    let chunks = vec![
        make_chunk(vec![0, 0, 0], 0x1000, 80),
        make_chunk(vec![10, 0, 0], 0x2000, 80),
    ];
    cache.populate_index(&chunks, 2); // rank=2, truncate to [0,0] and [10,0]
    assert!(cache.has_index());

    let c0 = cache.lookup_index(&[0, 0]).unwrap();
    assert_eq!(c0.address, 0x1000);

    let c1 = cache.lookup_index(&[10, 0]).unwrap();
    assert_eq!(c1.address, 0x2000);

    assert!(cache.lookup_index(&[5, 0]).is_none());
}

#[test]
fn decompressed_cache_hit() {
    let mut cache = ChunkCache::new();
    cache.put_decompressed(vec![0, 0], vec![1, 2, 3, 4]);
    let got = cache.get_decompressed(&[0, 0]).unwrap();
    assert_eq!(got, vec![1, 2, 3, 4]);
}

#[test]
fn lru_eviction_by_slots() {
    let mut cache = ChunkCache::with_capacity(1024 * 1024, 2); // max 2 slots

    cache.put_decompressed(vec![0], vec![1; 10]);
    cache.put_decompressed(vec![1], vec![2; 10]);
    assert_eq!(cache.cached_chunk_count(), 2);

    // Access slot 0 to make it more recent
    cache.get_decompressed(&[0]);

    // Insert slot 2 — should evict slot 1 (LRU)
    cache.put_decompressed(vec![2], vec![3; 10]);
    assert_eq!(cache.cached_chunk_count(), 2);

    assert!(cache.get_decompressed(&[0]).is_some());
    assert!(cache.get_decompressed(&[1]).is_none()); // evicted
    assert!(cache.get_decompressed(&[2]).is_some());
}

#[test]
fn lru_eviction_by_bytes() {
    let mut cache = ChunkCache::with_capacity(50, 100); // 50 bytes max

    cache.put_decompressed(vec![0], vec![0; 20]);
    cache.put_decompressed(vec![1], vec![0; 20]);
    assert_eq!(cache.cached_bytes(), 40);

    // This needs 20 bytes but only 10 free — evict LRU
    cache.put_decompressed(vec![2], vec![0; 20]);
    assert!(cache.cached_bytes() <= 50);
    assert!(cache.get_decompressed(&[0]).is_none()); // evicted (LRU)
}

#[test]
fn oversized_chunk_not_cached() {
    let mut cache = ChunkCache::with_capacity(10, 16);
    cache.put_decompressed(vec![0], vec![0; 100]); // too big
    assert_eq!(cache.cached_chunk_count(), 0);
}

#[test]
fn clear_resets_everything() {
    let mut cache = ChunkCache::new();
    let chunks = vec![make_chunk(vec![0, 0], 0x1000, 80)];
    cache.populate_index(&chunks, 1);
    cache.put_decompressed(vec![0], vec![1, 2, 3]);

    cache.clear();
    assert!(!cache.has_index());
    assert_eq!(cache.cached_chunk_count(), 0);
    assert_eq!(cache.cached_bytes(), 0);
}

#[test]
fn duplicate_insert_is_noop() {
    let mut cache = ChunkCache::new();
    cache.put_decompressed(vec![0], vec![1, 2, 3]);
    cache.put_decompressed(vec![0], vec![1, 2, 3]); // duplicate
    assert_eq!(cache.cached_chunk_count(), 1);
    assert_eq!(cache.cached_bytes(), 3);
}

// --- CacheAlignedBuffer tests ---

#[test]
fn aligned_buffer_basic() {
    let buf = CacheAlignedBuffer::zeroed(256);
    assert_eq!(buf.len(), 256);
    assert!(buf.is_aligned());
    assert_eq!(&buf[..4], &[0, 0, 0, 0]);
}

#[test]
fn aligned_buffer_from_slice() {
    let data = vec![1u8, 2, 3, 4, 5];
    let buf = CacheAlignedBuffer::from_slice(&data);
    assert_eq!(buf.len(), 5);
    assert!(buf.is_aligned());
    assert_eq!(buf.to_vec(), data);
}

#[test]
fn aligned_buffer_from_vec() {
    let data = vec![42u8; 1024];
    let buf = CacheAlignedBuffer::from_vec(data.clone());
    assert!(buf.is_aligned());
    assert_eq!(buf.to_vec(), data);
}

#[test]
fn aligned_buffer_empty() {
    let buf = CacheAlignedBuffer::zeroed(0);
    assert!(buf.is_empty());
    assert!(buf.is_aligned());
    assert_eq!(buf.to_vec(), Vec::<u8>::new());
}

#[test]
fn aligned_buffer_clone_is_aligned() {
    let buf = CacheAlignedBuffer::from_slice(&[1, 2, 3, 4]);
    let cloned = buf.clone();
    assert!(cloned.is_aligned());
    assert_eq!(buf.to_vec(), cloned.to_vec());
}

#[test]
fn aligned_buffer_deref_works() {
    let buf = CacheAlignedBuffer::from_slice(&[10, 20, 30]);
    assert_eq!(buf[0], 10);
    assert_eq!(buf[1], 20);
    assert_eq!(buf[2], 30);
}

#[test]
fn aligned_buffer_various_sizes() {
    // Test alignment for various sizes including non-power-of-two
    for size in [1, 7, 63, 64, 65, 127, 128, 129, 255, 256, 1000, 4096] {
        let buf = CacheAlignedBuffer::zeroed(size);
        assert!(buf.is_aligned(), "not aligned for size {size}");
        assert_eq!(buf.len(), size);
    }
}

#[test]
fn cached_data_is_aligned() {
    let mut cache = ChunkCache::new();
    cache.put_decompressed(vec![0, 0], vec![1, 2, 3, 4, 5, 6, 7, 8]);
    let aligned = cache.get_decompressed_aligned(&[0, 0]).unwrap();
    assert!(aligned.is_aligned());
    assert_eq!(aligned.to_vec(), vec![1, 2, 3, 4, 5, 6, 7, 8]);
}

#[test]
fn align_to_cache_line_values() {
    assert_eq!(align_to_cache_line(0), 0);
    assert_eq!(align_to_cache_line(1), CACHE_LINE_SIZE);
    assert_eq!(align_to_cache_line(CACHE_LINE_SIZE), CACHE_LINE_SIZE);
    assert_eq!(align_to_cache_line(CACHE_LINE_SIZE + 1), CACHE_LINE_SIZE * 2);
}

//! Tests of errors and edge cases that the tests of single modules leave out.

use rustyhdf5_format::btree_v1::collect_symbol_table_nodes;
use rustyhdf5_format::bytes::{put_address, put_le, width_of};
use rustyhdf5_format::chunk_cache::{
    gap_to_line, on_line, start_in, CacheAlignedBuffer, ChunkCache,
};
use rustyhdf5_format::chunked_read::{
    can_list_implicit, can_read_chunked_data, collect_chunk_info, generate_implicit_chunks,
    read_chunked_data, read_chunked_data_cached, read_chunked_data_cached_checked,
    read_chunked_data_checked, read_chunked_data_sweep, SweepContext,
};
use rustyhdf5_format::chunked_write::{
    build_chunked_data_at, build_chunked_data_at_ext, build_chunked_data_checked,
    build_extensible_array_at, ChunkOptions, WrittenChunk,
};
use rustyhdf5_format::data_layout::DataLayout;
use rustyhdf5_format::data_read::read_raw_data_checked;
use rustyhdf5_format::dataspace::{Dataspace, DataspaceType};
use rustyhdf5_format::datatype::{CharacterSet, Datatype, DatatypeByteOrder, StringPadding};
use rustyhdf5_format::error::FormatError;
use rustyhdf5_format::extensible_array::{
    can_read_extensible_array, read_extensible_array_chunks, ExtensibleArrayHeader,
};
use rustyhdf5_format::filter_pipeline::FilterPipeline;
use rustyhdf5_format::fixed_array::{
    can_read_fixed_array, read_fixed_array_chunks, FixedArrayHeader,
};
use rustyhdf5_format::object_header::ObjectHeader;
use rustyhdf5_format::text::{put_decimal, put_hex, same_text, split_path};
use rustyhdf5_format::utils::{is_undefined_offset, pad8, read_offset};

fn simple_space(dims: &[u64]) -> Dataspace {
    Dataspace {
        space_type: DataspaceType::Simple,
        rank: dims.len() as u8,
        dimensions: dims.to_vec(),
        max_dimensions: None,
    }
}

#[test]
fn decimal_and_hexadecimal() {
    let mut s = String::from("n=");
    put_decimal(&mut s, 0);
    s.push(' ');
    put_decimal(&mut s, u64::MAX);
    assert_eq!(s, "n=0 18446744073709551615");
    let mut s = String::new();
    put_hex(&mut s, &[0x00, 0x9f, 0xff]);
    assert_eq!(s, "009fff");
}

#[test]
fn paths_are_split_at_slashes() {
    assert_eq!(split_path("/a//bc/ü/"), vec!["a", "bc", "ü"]);
    assert!(split_path("///").is_empty());
    assert!(split_path("").is_empty());
    assert!(same_text("ü", "ü"));
    assert!(!same_text("u", "ü"));
}

#[test]
fn little_endian_fields() {
    let mut buf = Vec::new();
    put_le(&mut buf, 0x1234_5678, 3);
    assert_eq!(buf, vec![0x78, 0x56, 0x34]);
    let mut buf = Vec::new();
    put_address(&mut buf, 0x1_0000_0002, 4);
    assert_eq!(buf, vec![2, 0, 0, 0]);
    assert_eq!(width_of(0), 1);
    assert_eq!(width_of(255), 1);
    assert_eq!(width_of(256), 2);
    assert_eq!(pad8(0), 0);
    assert_eq!(pad8(9), 16);
}

#[test]
fn offsets_of_all_sizes() {
    let d = [1u8, 2, 3, 4, 5, 6, 7, 8];
    assert_eq!(read_offset(&d, 0, 2).unwrap(), 0x0201);
    assert_eq!(read_offset(&d, 1, 4).unwrap(), 0x0504_0302);
    assert_eq!(read_offset(&d, 0, 8).unwrap(), 0x0807_0605_0403_0201);
    assert_eq!(read_offset(&d, 0, 3).unwrap_err(), FormatError::InvalidOffsetSize(3));
    assert!(matches!(read_offset(&d, 1, 8).unwrap_err(), FormatError::UnexpectedEof { .. }));
    assert!(is_undefined_offset(0xFFFF, 2));
    assert!(is_undefined_offset(0xFFFF_FFFF, 4));
    assert!(!is_undefined_offset(0xFFFF_FFFF, 8));
}

#[test]
fn object_header_errors() {
    let mut v2 = b"OHDR".to_vec();
    v2.extend_from_slice(&[9, 0, 0, 0, 0, 0, 0, 0, 0, 0, 0, 0]);
    assert_eq!(
        ObjectHeader::parse(&v2, 0, 8, 8).unwrap_err(),
        FormatError::InvalidObjectHeaderVersion(9)
    );
    assert_eq!(
        ObjectHeader::parse(&[7u8; 32], 0, 8, 8).unwrap_err(),
        FormatError::InvalidObjectHeaderSignature
    );
}

#[test]
fn datatype_version_error() {
    // an array of version 1
    let mut d = vec![0x1A, 0, 0, 0];
    d.extend_from_slice(&4u32.to_le_bytes());
    d.extend_from_slice(&[0; 16]);
    assert_eq!(
        Datatype::parse(&d).unwrap_err(),
        FormatError::InvalidDatatypeVersion { class: 10, version: 1 }
    );
}

#[test]
fn chunked_read_of_another_layout() {
    let layout = DataLayout::Compact { data: vec![1] };
    let err = read_chunked_data(
        &[],
        &layout,
        &simple_space(&[1]),
        &Datatype::u8_le(),
        None,
        8,
        8,
    )
    .unwrap_err();
    assert!(matches!(err, FormatError::ChunkedReadError(_)));
}

/// Writes data in chunks, reads it back in all ways, and gives what was read.
fn through_chunks(
    raw: &[u8],
    shape: &[u64],
    chunk: &[u64],
    options: &ChunkOptions,
    maxshape: Option<&[u64]>,
) -> Vec<u8> {
    let base = 128u64;
    let written =
        build_chunked_data_at_ext(raw, shape, chunk, 2, options, base, maxshape).unwrap();
    let mut file = vec![0xEEu8; base as usize];
    file.extend_from_slice(&written.data_bytes);
    file.extend_from_slice(&[0xEE; 50]);
    let layout = DataLayout::parse(&written.layout_message, 8, 8).unwrap();
    let pipeline = written.pipeline_message.map(|m| FilterPipeline::parse(&m).unwrap());
    let space = simple_space(shape);
    let t = Datatype::u16_le();
    let plain =
        read_chunked_data(&file, &layout, &space, &t, pipeline.as_ref(), 8, 8).unwrap();
    let checked =
        read_chunked_data_checked(&file, &layout, &space, &t, pipeline.as_ref(), 8, 8);
    assert_eq!(checked, Some(Ok(plain.clone())));
    let mut cache = ChunkCache::new();
    for _ in 0..2 {
        let checked = read_chunked_data_cached_checked(
            &file, &layout, &space, &t, pipeline.as_ref(), 8, 8, &mut cache,
        );
        assert_eq!(checked, Some(Ok(plain.clone())));
    }
    let mut cache = ChunkCache::new();
    for _ in 0..2 {
        let cached = read_chunked_data_cached(
            &file, &layout, &space, &t, pipeline.as_ref(), 8, 8, &mut cache,
        )
        .unwrap();
        assert_eq!(cached, plain);
    }
    let mut cache = ChunkCache::with_capacity(10, 2);
    let mut sweep = SweepContext::with_defaults();
    for _ in 0..2 {
        let swept = read_chunked_data_sweep(
            &file, &layout, &space, &t, pipeline.as_ref(), 8, 8, &mut cache, &mut sweep,
        )
        .unwrap();
        assert_eq!(swept, plain);
    }
    plain
}

#[test]
fn chunks_of_all_indexes_are_read_back() {
    let raw: Vec<u8> = (0..2 * 7 * 11u32).map(|i| (i * 37 % 251) as u8).collect();
    let all = [
        ChunkOptions::default(),
        ChunkOptions { shuffle: true, fletcher32: true, ..ChunkOptions::default() },
        ChunkOptions { deflate_level: Some(6), ..ChunkOptions::default() },
    ];
    for options in &all {
        // one chunk, chunks that do not divide the extents, and chunks of one element
        assert_eq!(through_chunks(&raw, &[7, 11], &[7, 11], options, None), raw);
        assert_eq!(through_chunks(&raw, &[7, 11], &[3, 4], options, None), raw);
        assert_eq!(through_chunks(&raw, &[7, 11], &[1, 1], options, None), raw);
        // an extensible array with 1, 9 and 35 chunks
        let limits = [u64::MAX, u64::MAX];
        assert_eq!(through_chunks(&raw, &[7, 11], &[7, 11], options, Some(&limits)), raw);
        assert_eq!(through_chunks(&raw, &[7, 11], &[3, 4], options, Some(&limits)), raw);
        assert_eq!(through_chunks(&raw, &[7, 11], &[2, 1], options, None), raw);
        assert_eq!(through_chunks(&raw, &[7, 11], &[1, 3], options, Some(&limits)), raw);
    }
}

#[test]
fn layout_of_a_single_chunk() {
    let written =
        build_chunked_data_at(&[1, 2, 3, 4], &[2], &[2], 2, &ChunkOptions::default(), 64).unwrap();
    // the chunk, padded to a cache line
    assert_eq!(written.data_bytes.len(), 64);
    assert_eq!(written.data_bytes[..4], [1, 2, 3, 4]);
    assert!(written.pipeline_message.is_none());
    assert!(matches!(
        DataLayout::parse(&written.layout_message, 8, 8).unwrap(),
        DataLayout::Chunked { btree_address: Some(64), chunk_index_type: Some(1), .. }
    ));
}

#[test]
fn aligned_buffer_can_be_written() {
    let mut buf = CacheAlignedBuffer::zeroed(70);
    buf.as_mut_slice()[69] = 5;
    assert!(buf.is_aligned());
    assert_eq!(buf.len(), 70);
    assert_eq!(buf[69], 5);
    assert_eq!(buf[68], 0);
}

#[test]
fn looped_continuation_is_an_error() {
    let mut file = vec![0u8; 128];
    let mut message = vec![0x10u8, 0, 16, 0, 0, 0, 0, 0];
    message.extend_from_slice(&64u64.to_le_bytes());
    message.extend_from_slice(&24u64.to_le_bytes());
    // version 1, one message, reference count 1, 24 bytes of messages
    file[..16].copy_from_slice(&[1, 0, 1, 0, 1, 0, 0, 0, 24, 0, 0, 0, 0, 0, 0, 0]);
    file[16..40].copy_from_slice(&message);
    // a continuation block that continues itself
    file[64..88].copy_from_slice(&message);
    assert_eq!(
        ObjectHeader::parse(&file, 0, 8, 8).unwrap_err(),
        FormatError::NestingDepthExceeded
    );
}

#[test]
fn general_error() {
    assert_eq!(FormatError::stop("halt"), FormatError::GeneralError("halt".to_string()));
}

#[test]
fn chunking_is_asked_for() {
    assert!(!ChunkOptions::default().is_chunked());
    assert!(ChunkOptions { chunk_dims: Some(vec![1]), ..ChunkOptions::default() }.is_chunked());
    assert!(ChunkOptions { shuffle: true, ..ChunkOptions::default() }.is_chunked());
}

#[test]
fn big_endian_and_text_types() {
    assert_eq!(
        Datatype::f64_be(),
        Datatype::FloatingPoint {
            size: 8,
            byte_order: DatatypeByteOrder::BigEndian,
            bit_offset: 0,
            bit_precision: 64,
            exponent_location: 52,
            exponent_size: 11,
            mantissa_location: 0,
            mantissa_size: 52,
            exponent_bias: 1023,
        }
    );
    assert_eq!(
        Datatype::string_space_padded_ascii(4),
        Datatype::String {
            size: 4,
            padding: StringPadding::SpacePad,
            charset: CharacterSet::Ascii,
        }
    );
    assert_eq!(
        Datatype::string_null_terminate_utf8(3),
        Datatype::String {
            size: 3,
            padding: StringPadding::NullTerminate,
            charset: CharacterSet::Utf8,
        }
    );
    assert_eq!(
        Datatype::string_null_padded_utf8(2),
        Datatype::String { size: 2, padding: StringPadding::NullPad, charset: CharacterSet::Utf8 }
    );
    assert_eq!(Datatype::u8_le().class_name(), "FixedPoint");
}

/// A B-tree node of version 1 at level 1 whose only child is at `child`.
fn inner_node(node_type: u8, key_size: usize, child: u64) -> Vec<u8> {
    let mut buf = b"TREE".to_vec();
    buf.push(node_type);
    buf.push(1);
    buf.extend_from_slice(&1u16.to_le_bytes());
    buf.extend_from_slice(&[0xFF; 16]);
    buf.extend_from_slice(&vec![0; key_size]);
    buf.extend_from_slice(&child.to_le_bytes());
    buf.extend_from_slice(&vec![0; key_size]);
    buf
}

#[test]
fn tree_that_leads_back_is_an_error() {
    let mut file = inner_node(0, 8, 100);
    file.resize(100, 0);
    file.extend_from_slice(&inner_node(0, 8, 0));
    assert_eq!(
        collect_symbol_table_nodes(&file, 0, 8, 8).unwrap_err(),
        FormatError::NestingDepthExceeded
    );
    let mut file = inner_node(1, 8 + 16, 0);
    file.extend_from_slice(&[0; 3000]);
    assert_eq!(
        collect_chunk_info(&file, 0, 2, 8, 8).unwrap_err(),
        FormatError::NestingDepthExceeded
    );
}

#[test]
fn first_error_of_a_tree_is_returned() {
    // the first child is damaged, the second one leads back
    let mut file = b"TREE".to_vec();
    file.extend_from_slice(&[0, 1, 2, 0]);
    file.extend_from_slice(&[0xFF; 16]);
    for child in [200u64, 0] {
        file.extend_from_slice(&[0; 8]);
        file.extend_from_slice(&child.to_le_bytes());
    }
    file.extend_from_slice(&[0; 8]);
    file.resize(300, 0);
    assert_eq!(
        collect_symbol_table_nodes(&file, 0, 8, 8).unwrap_err(),
        FormatError::InvalidBTreeSignature
    );
}

#[test]
fn checked_data_is_the_built_data() {
    let raw: Vec<u8> = (0..40).collect();
    let options = ChunkOptions { deflate_level: Some(6), ..ChunkOptions::default() };
    let unlimited = [u64::MAX];
    for maxshape in [None, Some(&unlimited[..])] {
        let built =
            build_chunked_data_at_ext(&raw, &[20], &[6], 2, &options, 0x1000, maxshape).unwrap();
        let checked =
            build_chunked_data_checked(&raw, &[20], &[6], 2, &options, 0x1000, maxshape)
                .unwrap()
                .unwrap();
        assert_eq!(checked.data_bytes, built.data_bytes);
        assert_eq!(checked.layout_message, built.layout_message);
        assert_eq!(checked.pipeline_message, built.pipeline_message);
    }
}

#[test]
fn checked_data_needs_addresses() {
    let raw: Vec<u8> = (0..40).collect();
    let options = ChunkOptions::default();
    let at = |base: u64| build_chunked_data_checked(&raw, &[20], &[6], 2, &options, base, None);
    let len = at(0).unwrap().unwrap().data_bytes.len() as u64;
    // Four chunks in cache lines of their own, then header and data block of the Fixed Array
    assert_eq!(len, 256 + 28 + 18 + 4 * 8);
    let last = u64::MAX - len;
    assert_eq!(at(last).unwrap().unwrap().data_bytes.len() as u64, len);
    assert!(at(last + 1).is_none());
    assert!(at(u64::MAX).is_none());
    let middle = at(1 << 63).unwrap().unwrap();
    // The first element of the data block is the address of the first chunk
    assert_eq!(middle.data_bytes[256 + 28 + 14..256 + 28 + 22], (1u64 << 63).to_le_bytes());
}

fn written(n: usize) -> Vec<WrittenChunk> {
    (0..n as u64)
        .map(|i| WrittenChunk {
            address: 0x1000 + 16 * i,
            compressed_size: 16,
            raw_size: 16,
            filter_mask: 0,
        })
        .collect()
}

fn read_extensible(n: usize, os: u8, ls: u8, filtered: bool) -> Vec<(u64, Vec<u64>, u32)> {
    let mut file = vec![0u8; 0x2000];
    file.extend(build_extensible_array_at(&written(n), os, ls, filtered, 0x2000));
    let header = ExtensibleArrayHeader::parse(&file, 0x2000, os, ls).unwrap();
    read_extensible_array_chunks(&file, &header, &[2 * n as u64], &[2], 8, os, ls)
        .unwrap()
        .into_iter()
        .map(|c| (c.address, c.offsets, c.chunk_size))
        .collect()
}

#[test]
fn extensible_array_lists_all_chunks() {
    for n in [1, 4, 5, 20, 36, 37, 52, 100, 243, 244, 245, 300, 501, 1013, 5000] {
        let expected: Vec<(u64, Vec<u64>, u32)> =
            (0..n as u64).map(|i| (0x1000 + 16 * i, vec![2 * i], 16)).collect();
        for os in [4, 8] {
            for ls in [4, 8] {
                assert_eq!(read_extensible(n, os, ls, false), expected);
                assert_eq!(read_extensible(n, os, ls, true), expected);
            }
        }
    }
}

#[test]
fn super_block_stands_behind_the_listed_blocks() {
    let bytes = build_extensible_array_at(&written(245), 8, 8, false, 0);
    // Header, index block and six data blocks
    let at = 72 + (10 + 32 * 8 + 4 * 8) + 6 * 22 + 240 * 8;
    assert_eq!(&bytes[at..at + 4], b"EASB");
    // Its address is the seventh in the index block
    let list = 72 + 14 + 4 * 8;
    assert_eq!(bytes[list + 48..list + 56], (at as u64).to_le_bytes());
    assert!(bytes[list + 56..list + 64].iter().all(|&b| b == 0xFF));
    // Four data blocks, of which the first holds the last chunk
    let block = at + 14 + 4 * 8 + 4;
    assert_eq!(bytes[at + 14..at + 22], (block as u64).to_le_bytes());
    assert!(bytes[at + 22..at + 46].iter().all(|&b| b == 0xFF));
    assert_eq!(&bytes[block..block + 4], b"EADB");
    assert_eq!(bytes.len(), block + 22 + 64 * 8);
}

#[test]
fn many_chunks_are_read_back() {
    let raw: Vec<u8> = (0..2000u32).map(|i| (i % 251) as u8).collect();
    let space = Dataspace {
        space_type: DataspaceType::Simple,
        rank: 1,
        dimensions: vec![2000],
        max_dimensions: Some(vec![u64::MAX]),
    };
    for options in [
        ChunkOptions::default(),
        ChunkOptions { deflate_level: Some(6), ..ChunkOptions::default() },
    ] {
        let unlimited = [u64::MAX];
        let built = build_chunked_data_at_ext(
            &raw,
            &[2000],
            &[4],
            1,
            &options,
            64,
            Some(&unlimited),
        )
        .unwrap();
        let mut file = vec![0u8; 64];
        file.extend(&built.data_bytes);
        let layout = DataLayout::parse(&built.layout_message, 8, 8).unwrap();
        let pipeline = options.build_pipeline(1);
        let out = read_chunked_data(
            &file,
            &layout,
            &space,
            &Datatype::u8_le(),
            pipeline.as_ref(),
            8,
            8,
        )
        .unwrap();
        assert_eq!(out, raw);
    }
}

#[test]
fn lines_of_addresses() {
    assert!(on_line(0));
    assert!(on_line(128));
    assert!(!on_line(127));
    assert_eq!(gap_to_line(0), 0);
    assert_eq!(gap_to_line(1), 63);
    assert_eq!(gap_to_line(127), 1);
    assert_eq!(gap_to_line(usize::MAX), 1);
    assert_eq!(start_in(100, 63), 28);
    assert_eq!(start_in(100, 27), 0);
    for len in [1, 63, 64, 1000] {
        let buf = CacheAlignedBuffer::zeroed(len);
        assert!(on_line(buf.as_slice().as_ptr() as usize));
        assert!(buf.is_aligned());
        assert!(CacheAlignedBuffer::from_vec(vec![7; len]).is_aligned());
    }
}

fn chunked(extents: &[u32], address: u64, index_type: u8) -> DataLayout {
    DataLayout::Chunked {
        chunk_dimensions: extents.to_vec(),
        btree_address: Some(address),
        version: 4,
        chunk_index_type: Some(index_type),
        single_chunk_filtered_size: None,
        single_chunk_filter_mask: None,
    }
}

#[test]
fn sizes_that_cannot_be_computed_with_are_found() {
    let t = Datatype::u8_le();
    let space = simple_space(&[4, 4]);
    let file = vec![0u8; 64];
    let can = |layout: &DataLayout, space: &Dataspace| {
        can_read_chunked_data(&file, layout, space, &t, 8, 8)
    };
    // a chunk of more elements than can be counted
    assert!(!can(&chunked(&[u32::MAX, u32::MAX, 1], 0, 1), &simple_space(&[1 << 40, 1 << 40])));
    // no extent along an axis
    assert!(!can(&chunked(&[0, 2, 1], 0, 2), &space));
    // addresses behind the last one
    assert!(!can(&chunked(&[2, 2, 1], u64::MAX, 2), &space));
    assert!(can(&chunked(&[2, 2, 1], 0, 2), &space));
    // no extents at all
    assert!(!can(&chunked(&[], 0, 1), &space));
    // errors are found by reading
    assert!(can(&chunked(&[2, 1], 0, 1), &space));
    assert!(can(&chunked(&[2, 2, 1], 0, 9), &space));
    assert!(can(&DataLayout::Compact { data: vec![1] }, &space));
    let none = read_chunked_data_checked(
        &file, &chunked(&[0, 2, 1], 0, 2), &space, &t, None, 8, 8,
    );
    assert_eq!(none, None);
    let none = read_raw_data_checked(
        &file, &chunked(&[0, 2, 1], 0, 2), &space, &t, None, 8, 8,
    );
    assert_eq!(none, None);
    // more elements than can be counted
    let compact = DataLayout::Compact { data: vec![1, 2] };
    let vast = simple_space(&[u64::MAX, 2]);
    assert_eq!(read_raw_data_checked(&file, &compact, &vast, &t, None, 8, 8), None);
    assert_eq!(
        read_raw_data_checked(&file, &compact, &simple_space(&[2]), &t, None, 8, 8),
        Some(Ok(vec![1, 2]))
    );
}

#[test]
fn damaged_array_headers_are_found() {
    let raw = vec![7u8; 100];
    let unlimited = [u64::MAX];
    for maxshape in [None, Some(&unlimited[..])] {
        let built = build_chunked_data_at_ext(
            &raw, &[100], &[5], 1, &ChunkOptions::default(), 0, maxshape,
        )
        .unwrap();
        let layout = DataLayout::parse(&built.layout_message, 8, 8).unwrap();
        let DataLayout::Chunked { btree_address: Some(address), .. } = &layout else {
            panic!("expected chunks");
        };
        let at = *address as usize;
        let space = simple_space(&[100]);
        let t = Datatype::u8_le();
        let read = |file: &[u8], cache: &mut ChunkCache| {
            let plain = read_chunked_data_checked(file, &layout, &space, &t, None, 8, 8);
            let cached =
                read_chunked_data_cached_checked(file, &layout, &space, &t, None, 8, 8, cache);
            assert_eq!(plain, cached);
            plain
        };
        assert_eq!(read(&built.data_bytes, &mut ChunkCache::new()), Some(Ok(raw.clone())));
        // more bits than a count of elements has
        let mut damaged = built.data_bytes.clone();
        damaged[at + 7] = 64;
        assert_eq!(read(&damaged, &mut ChunkCache::new()), None);
        // elements of chunks with filters, without room for a size
        let mut damaged = built.data_bytes.clone();
        damaged[at + 5] = 1;
        assert_eq!(read(&damaged, &mut ChunkCache::new()), None);
        // another signature is an error
        let mut damaged = built.data_bytes.clone();
        damaged[at] = 0;
        assert!(matches!(
            read(&damaged, &mut ChunkCache::new()),
            Some(Err(FormatError::ChunkedReadError(_)))
        ));
        // a cache without slots takes no chunks
        let none = read_chunked_data_cached_checked(
            &built.data_bytes, &layout, &space, &t, None, 8, 8,
            &mut ChunkCache::with_capacity(100, 0),
        );
        assert_eq!(none, None);
    }
}

#[test]
fn damaged_super_blocks_are_found() {
    let raw = vec![7u8; 1000];
    let unlimited = [u64::MAX];
    let built = build_chunked_data_at_ext(
        &raw, &[1000], &[1], 1, &ChunkOptions::default(), 0, Some(&unlimited),
    )
    .unwrap();
    let layout = DataLayout::parse(&built.layout_message, 8, 8).unwrap();
    let DataLayout::Chunked { btree_address: Some(address), .. } = &layout else {
        panic!("expected chunks");
    };
    let at = *address as usize;
    let header = ExtensibleArrayHeader::parse(&built.data_bytes, at, 8, 8).unwrap();
    assert_eq!(header.num_elements, 1000);
    assert!(can_read_extensible_array(&built.data_bytes, &header, &[1000], &[1], 1, 8));
    // data blocks without elements never cover the array
    let empty = ExtensibleArrayHeader { min_dblk_nelmts: 0, ..header };
    assert!(!can_read_extensible_array(&built.data_bytes, &empty, &[1000], &[1], 1, 8));
    // data blocks that the index block lists, without end
    let endless = ExtensibleArrayHeader { super_blk_min_nelmts: 128, ..header };
    assert!(!can_read_extensible_array(&built.data_bytes, &endless, &[1000], &[1], 1, 8));
    // more elements than super blocks can hold
    let vast = ExtensibleArrayHeader { num_elements: u64::MAX, ..header };
    assert!(!can_read_extensible_array(&built.data_bytes, &vast, &[1000], &[1], 1, 8));
    // all elements stand in the index block
    let few = ExtensibleArrayHeader { num_elements: 4, min_dblk_nelmts: 0, ..header };
    assert!(can_read_extensible_array(&built.data_bytes, &few, &[1000], &[1], 1, 8));
}

#[test]
fn messages_of_written_data() {
    let raw = vec![1u8; 2 * 12];
    let unlimited = [u64::MAX];
    for (chunk, maxshape, index) in
        [(5u64, None, 3u8), (12, None, 1), (12, Some(&unlimited[..]), 4), (5, Some(&[12][..]), 3)]
    {
        for (options, filtered) in [
            (ChunkOptions::default(), false),
            (ChunkOptions { shuffle: true, ..ChunkOptions::default() }, true),
            (ChunkOptions { fletcher32: true, ..ChunkOptions::default() }, true),
            (ChunkOptions { deflate_level: Some(0), ..ChunkOptions::default() }, true),
        ] {
            let built =
                build_chunked_data_at_ext(&raw, &[12], &[chunk], 2, &options, 64, maxshape)
                    .unwrap();
            assert_eq!(built.pipeline_message.is_some(), filtered);
            let DataLayout::Chunked { chunk_dimensions, version, chunk_index_type, .. } =
                DataLayout::parse(&built.layout_message, 8, 8).unwrap()
            else {
                panic!("expected chunks");
            };
            assert_eq!(chunk_dimensions, vec![chunk as u32, 2]);
            assert_eq!(version, 4);
            assert_eq!(chunk_index_type, Some(index));
        }
    }
}

#[test]
fn only_the_axis_of_a_sweep_is_computed_with() {
    let mut sweep = SweepContext::with_defaults();
    for i in 0..4 {
        sweep.record(vec![u64::MAX, 10 * i], 2);
    }
    assert!(!sweep.predicted_next.is_empty());
    assert_eq!(sweep.predicted_next[0], vec![u64::MAX, 40]);
    // downward, to the first coordinate and no further
    let mut sweep = SweepContext::with_defaults();
    for i in [30u64, 20, 10] {
        sweep.record(vec![i, u64::MAX], 2);
    }
    assert_eq!(sweep.predicted_next, vec![vec![0, u64::MAX]]);
}

/// A file with an Extensible Array of `n` elements at 0x1000, none of them allocated but those at
/// the given indexes.
fn sparse_array(n: usize, allocated: &[usize], filtered: bool) -> Vec<u8> {
    let chunks: Vec<WrittenChunk> = (0..n)
        .map(|i| WrittenChunk {
            address: if allocated.contains(&i) { 64 } else { u64::MAX },
            compressed_size: 2,
            raw_size: 2,
            filter_mask: 0,
        })
        .collect();
    let mut file = vec![0u8; 0x1000];
    file.extend(build_extensible_array_at(&chunks, 8, 8, filtered, 0x1000));
    file
}

#[test]
fn data_set_without_elements_has_no_chunks() {
    for n in [1usize, 4, 5, 100, 1000] {
        for filtered in [false, true] {
            let file = sparse_array(n, &[], filtered);
            let header = ExtensibleArrayHeader::parse(&file, 0x1000, 8, 8).unwrap();
            assert_eq!(header.num_elements, n as u64);
            assert!(can_read_extensible_array(&file, &header, &[0], &[2], 1, 8));
            let chunks =
                read_extensible_array_chunks(&file, &header, &[0], &[2], 1, 8, 8).unwrap();
            assert!(chunks.is_empty());
            // an allocated chunk has no place in such a data set
            let file = sparse_array(n, &[n - 1], filtered);
            assert!(!can_read_extensible_array(&file, &header, &[0], &[2], 1, 8));
            assert!(can_read_extensible_array(&file, &header, &[2 * n as u64], &[2], 1, 8));
        }
    }
}

#[test]
fn shrunk_data_set_is_read() {
    let file = sparse_array(50, &[], false);
    let layout = chunked(&[2, 1], 0x1000, 4);
    let space = simple_space(&[0]);
    let t = Datatype::u8_le();
    assert_eq!(read_chunked_data(&file, &layout, &space, &t, None, 8, 8), Ok(vec![]));
    assert_eq!(
        read_chunked_data_checked(&file, &layout, &space, &t, None, 8, 8),
        Some(Ok(vec![]))
    );
    for (bytes, slots) in [(100, 4), (0, 0)] {
        let mut cache = ChunkCache::with_capacity(bytes, slots);
        assert_eq!(
            read_chunked_data_cached_checked(&file, &layout, &space, &t, None, 8, 8, &mut cache),
            Some(Ok(vec![]))
        );
        let mut sweep = SweepContext::with_defaults();
        assert_eq!(
            read_chunked_data_sweep(
                &file, &layout, &space, &t, None, 8, 8, &mut cache, &mut sweep,
            ),
            Ok(vec![])
        );
    }
}

#[test]
fn only_what_is_read_has_to_be_readable() {
    let file = sparse_array(4, &[], true);
    let header = ExtensibleArrayHeader::parse(&file, 0x1000, 8, 8).unwrap();
    // no data block is read, and so no size of a page is computed
    let wide = ExtensibleArrayHeader { max_nelmts_bits: 200, ..header };
    assert!(can_read_extensible_array(&file, &wide, &[8], &[2], 1, 8));
    let file = sparse_array(5, &[], true);
    let header = ExtensibleArrayHeader::parse(&file, 0x1000, 8, 8).unwrap();
    let wide = ExtensibleArrayHeader { max_nelmts_bits: 200, ..header };
    assert!(!can_read_extensible_array(&file, &wide, &[10], &[2], 1, 8));
    // nor a size of a chunk that is not allocated
    let mut file = vec![0xFFu8; 200];
    file[..4].copy_from_slice(b"EAIB");
    let large = ExtensibleArrayHeader {
        client_id: 1,
        element_size: 30,
        idx_blk_elmts: 4,
        num_elements: 3,
        index_block_address: 0,
        ..header
    };
    assert!(can_read_extensible_array(&file, &large, &[6], &[2], 1, 8));
    let chunks = read_extensible_array_chunks(&file, &large, &[6], &[2], 1, 8, 8).unwrap();
    assert!(chunks.is_empty());
    file[14] = 0;
    assert!(!can_read_extensible_array(&file, &large, &[6], &[2], 1, 8));
    let narrow = ExtensibleArrayHeader { element_size: 11, ..large };
    assert!(!can_read_extensible_array(&file, &narrow, &[6], &[2], 1, 8));
    // the same of a Fixed Array
    let mut file = vec![0xFFu8; 200];
    file[..4].copy_from_slice(b"FADB");
    let large = FixedArrayHeader {
        client_id: 1,
        element_size: 30,
        max_nelmts_bits: 10,
        num_elements: 3,
        data_block_address: 0,
    };
    assert!(can_read_fixed_array(&file, &large, &[6], &[2], 1, 8));
    assert!(read_fixed_array_chunks(&file, &large, &[6], &[2], 1, 8, 8).unwrap().is_empty());
    file[14] = 0;
    assert!(!can_read_fixed_array(&file, &large, &[6], &[2], 1, 8));
}

#[test]
fn cache_that_keeps_nothing_needs_no_slots() {
    let raw: Vec<u8> = (0..100).collect();
    for options in [
        ChunkOptions::default(),
        ChunkOptions { deflate_level: Some(6), ..ChunkOptions::default() },
    ] {
        let built = build_chunked_data_at(&raw, &[100], &[5], 1, &options, 0).unwrap();
        let layout = DataLayout::parse(&built.layout_message, 8, 8).unwrap();
        let pipeline = options.build_pipeline(1);
        let space = simple_space(&[100]);
        let t = Datatype::u8_le();
        let file = &built.data_bytes;
        // caching switched off, or a budget below the size of a chunk
        for bytes in [0, 4] {
            let mut cache = ChunkCache::with_capacity(bytes, 0);
            let mut sweep = SweepContext::with_defaults();
            for _ in 0..2 {
                let read = read_chunked_data_cached(
                    file, &layout, &space, &t, pipeline.as_ref(), 8, 8, &mut cache,
                );
                assert_eq!(read, Ok(raw.clone()));
                let read = read_chunked_data_cached_checked(
                    file, &layout, &space, &t, pipeline.as_ref(), 8, 8, &mut cache,
                );
                assert_eq!(read, Some(Ok(raw.clone())));
                let read = read_chunked_data_sweep(
                    file, &layout, &space, &t, pipeline.as_ref(), 8, 8, &mut cache, &mut sweep,
                );
                assert_eq!(read, Ok(raw.clone()));
            }
        }
        // a chunk within the budget has no slot
        let mut cache = ChunkCache::with_capacity(5, 0);
        let read = read_chunked_data_cached_checked(
            file, &layout, &space, &t, pipeline.as_ref(), 8, 8, &mut cache,
        );
        assert_eq!(read, None);
        // a layout of another kind is an error, whatever the cache
        let compact = DataLayout::Compact { data: vec![1] };
        let read = read_chunked_data_cached_checked(
            file, &compact, &space, &t, None, 8, 8, &mut ChunkCache::with_capacity(5, 0),
        );
        assert!(matches!(read, Some(Err(FormatError::ChunkedReadError(_)))));
    }
    assert!(ChunkCache::with_capacity(5, 0).can_take(6));
    assert!(!ChunkCache::with_capacity(5, 0).can_take(5));
    assert!(ChunkCache::with_capacity(5, 1).can_take(5));
    assert!(ChunkCache::with_capacity(5, 0).can_serve(u64::MAX));
}

#[test]
fn coordinates_of_the_upper_half_are_below_zero() {
    let mut sweep = SweepContext::with_defaults();
    for i in [25u64, 15, 5] {
        sweep.record(vec![u64::MAX - (i - 1)], 1);
    }
    assert_eq!(sweep.predicted_next, vec![vec![5], vec![15], vec![25], vec![35]]);
    // what is below zero is not predicted
    let mut sweep = SweepContext::with_defaults();
    for i in [31u64, 21, 11] {
        sweep.record(vec![u64::MAX - (i - 1)], 1);
    }
    assert_eq!(sweep.direction, "row_major");
    assert!(sweep.predicted_next.is_empty());
}

/// A file with a B-tree leaf of one chunk at 0, and four bytes of data at 0x100.
fn leaf_of_one_chunk(offset: u64) -> Vec<u8> {
    let mut file = b"TREE".to_vec();
    file.extend_from_slice(&[1, 0, 1, 0]);
    file.extend_from_slice(&[0xFF; 16]);
    file.extend_from_slice(&4u32.to_le_bytes());
    file.extend_from_slice(&0u32.to_le_bytes());
    for value in [offset, 0, 0x100] {
        file.extend_from_slice(&value.to_le_bytes());
    }
    file.extend_from_slice(&[0; 24]);
    file.resize(0x100, 0);
    file.extend_from_slice(&[1, 2, 3, 4]);
    file
}

#[test]
fn chunks_beyond_the_data_set_are_not_placed() {
    let layout = DataLayout::Chunked {
        chunk_dimensions: vec![4, 1],
        btree_address: Some(0),
        version: 3,
        chunk_index_type: None,
        single_chunk_filtered_size: None,
        single_chunk_filter_mask: None,
    };
    let space = simple_space(&[6]);
    let t = Datatype::u8_le();
    for (offset, expected) in [
        (0, vec![1u8, 2, 3, 4, 0, 0]),
        (4, vec![0, 0, 0, 0, 1, 2]),
        (6, vec![0; 6]),
        (u64::MAX - 1, vec![0; 6]),
        (u64::MAX, vec![0; 6]),
    ] {
        let file = leaf_of_one_chunk(offset);
        assert_eq!(
            read_chunked_data(&file, &layout, &space, &t, None, 8, 8),
            Ok(expected.clone())
        );
        assert_eq!(
            read_chunked_data_checked(&file, &layout, &space, &t, None, 8, 8),
            Some(Ok(expected))
        );
    }
}

#[test]
fn keys_of_any_length() {
    // more axes than a file has bytes
    let err = collect_chunk_info(&[], 0, usize::MAX, 8, 8).unwrap_err();
    assert_eq!(err, FormatError::UnexpectedEof { expected: 24, available: 0 });
    let file = leaf_of_one_chunk(0);
    let err = collect_chunk_info(&file, 0, usize::MAX, 8, 8).unwrap_err();
    assert_eq!(err, FormatError::UnexpectedEof { expected: usize::MAX, available: 0x104 });
    let err = collect_chunk_info(&file, 0, 1000, 8, 8).unwrap_err();
    let needed = 24 + (8 + 8000 + 8) + 8 + 8000;
    assert_eq!(err, FormatError::UnexpectedEof { expected: needed, available: 0x104 });
}

#[test]
fn implicit_chunks_up_to_the_last_address() {
    let chunks = generate_implicit_chunks(u64::MAX - 2, &[4], &[2], 1);
    assert_eq!(chunks.len(), 2);
    assert_eq!(chunks[0].address, u64::MAX - 2);
    assert_eq!(chunks[1].address, u64::MAX);
    assert!(can_list_implicit(u64::MAX - 2, &[4], &[2], 1));
    assert!(!can_list_implicit(u64::MAX - 1, &[4], &[2], 1));
    assert!(can_list_implicit(u64::MAX, &[0], &[2], 1));
}

#[test]
fn sweep_context_without_a_window_records_nothing() {
    let file = sparse_array(3, &[], false);
    let mut sweep = SweepContext::new(0, usize::MAX);
    let read = read_chunked_data_sweep(
        &file,
        &chunked(&[2, 1], 0x1000, 4),
        &simple_space(&[6]),
        &Datatype::u8_le(),
        None,
        8,
        8,
        &mut ChunkCache::new(),
        &mut sweep,
    );
    assert_eq!(read, Ok(vec![0; 6]));
    assert!(sweep.history.is_empty());
}

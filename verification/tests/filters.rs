//! Tests of checksums and filters.

use rustyhdf5_format::checksum::jenkins_lookup3;
use rustyhdf5_format::error::FormatError;
use rustyhdf5_format::filter_pipeline::{
    FilterDescription, FilterPipeline, FILTER_DEFLATE, FILTER_FLETCHER32, FILTER_SHUFFLE,
    FILTER_SZIP,
};
use rustyhdf5_format::filters::{
    compress_chunk, decompress_chunk, fletcher32, shuffle, unshuffle,
};

fn pipeline(ids: &[u16], level: u32) -> FilterPipeline {
    FilterPipeline {
        version: 2,
        filters: ids
            .iter()
            .map(|&filter_id| FilterDescription {
                filter_id,
                name: None,
                flags: 0,
                client_data: if filter_id == FILTER_DEFLATE { vec![level] } else { vec![] },
            })
            .collect(),
    }
}

#[test]
fn lookup3_known_values() {
    assert_eq!(jenkins_lookup3(b""), 0xdead_beef);
    assert_eq!(jenkins_lookup3(b"HDF5"), 0xf99d_fa17);
    assert_eq!(jenkins_lookup3(b"Four score and seven years ago"), 0x1777_0551);
}

#[test]
fn fletcher32_known_values() {
    assert_eq!(fletcher32(&[]), 0);
    assert_eq!(fletcher32(&[1, 2, 3, 4, 5, 6, 7, 8]), 0x1e28_1014);
    assert_eq!(fletcher32(b"abcde"), 0x4ff0_29c7);
    assert_eq!(fletcher32(&[0xff; 2000]), 0xffff_ffff);
}

#[test]
fn shuffle_groups_bytes() {
    let data = [1u8, 2, 3, 4, 5, 6, 7, 8, 9];
    // two elements of four bytes and one byte that is left over
    assert_eq!(shuffle(&data, 4), vec![1, 5, 2, 6, 3, 7, 4, 8, 9]);
    assert_eq!(unshuffle(&shuffle(&data, 4), 4), data.to_vec());
    assert_eq!(shuffle(&data, 1), data.to_vec());
    assert_eq!(shuffle(&[1, 2], 4), vec![1, 2]);
}

#[test]
fn inflate_known_stream() {
    let stream = [120u8, 156, 203, 72, 205, 201, 201, 87, 200, 64, 144, 0, 58, 46, 6, 125];
    let p = pipeline(&[FILTER_DEFLATE], 6);
    assert_eq!(decompress_chunk(&stream, &p, 17, 1).unwrap(), b"hello hello hello".to_vec());
}

#[test]
fn deflate_makes_another_stream_and_is_undone() {
    let data: Vec<u8> = (0..1000u32).map(|i| (i % 7) as u8).collect();
    for level in [0, 1, 6, 9] {
        let p = pipeline(&[FILTER_DEFLATE], level);
        let packed = compress_chunk(&data, &p, 1).unwrap();
        assert_ne!(packed, data);
        assert_eq!(decompress_chunk(&packed, &p, 1000, 1).unwrap(), data);
        if level > 0 {
            assert!(packed.len() < 100);
        }
    }
}

#[test]
fn damaged_stream_is_an_error() {
    let p = pipeline(&[FILTER_DEFLATE], 6);
    let err = decompress_chunk(&[1, 2, 3, 4, 5], &p, 5, 1).unwrap_err();
    assert_eq!(err, FormatError::DecompressionError("deflate decompression failed".to_string()));
}

#[test]
fn all_filters_are_undone_in_reverse() {
    let data: Vec<u8> = (0..256u32).flat_map(|i| i.to_le_bytes()).collect();
    let p = pipeline(&[FILTER_SHUFFLE, FILTER_DEFLATE, FILTER_FLETCHER32], 6);
    let packed = compress_chunk(&data, &p, 4).unwrap();
    assert_eq!(decompress_chunk(&packed, &p, data.len(), 4).unwrap(), data);
}

#[test]
fn fletcher32_filter_appends_and_checks() {
    let p = pipeline(&[FILTER_FLETCHER32], 0);
    let packed = compress_chunk(&[1, 2, 3, 4, 5, 6, 7, 8], &p, 1).unwrap();
    assert_eq!(packed, vec![1, 2, 3, 4, 5, 6, 7, 8, 0x14, 0x10, 0x28, 0x1e]);
    let mut damaged = packed.clone();
    damaged[0] = 0;
    let err = decompress_chunk(&damaged, &p, 8, 1).unwrap_err();
    assert_eq!(
        err,
        FormatError::Fletcher32Mismatch {
            expected: 0x1e28_1014,
            computed: fletcher32(&[0, 2, 3, 4, 5, 6, 7, 8]),
        }
    );
    let err = decompress_chunk(&[1, 2, 3], &p, 8, 1).unwrap_err();
    assert_eq!(err, FormatError::UnexpectedEof { expected: 4, available: 3 });
}

#[test]
fn unknown_filter_is_an_error() {
    let p = pipeline(&[FILTER_SZIP], 0);
    assert_eq!(compress_chunk(&[1], &p, 1).unwrap_err(), FormatError::UnsupportedFilter(4));
    assert_eq!(decompress_chunk(&[1], &p, 1, 1).unwrap_err(), FormatError::UnsupportedFilter(4));
}

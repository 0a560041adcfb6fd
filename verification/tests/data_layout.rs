//! Tests of the module `data_layout`.

use rustyhdf5_format::data_layout::DataLayout;
use rustyhdf5_format::error::FormatError;

#[test]
fn v3_compact() {
    let mut buf = vec![3u8, 0]; // version=3, class=0 (compact)
    buf.extend_from_slice(&5u16.to_le_bytes()); // data_size=5
    buf.extend_from_slice(&[0xAA, 0xBB, 0xCC, 0xDD, 0xEE]); // data
    let layout = DataLayout::parse(&buf, 8, 8).unwrap();
    assert_eq!(
        layout,
        DataLayout::Compact {
            data: vec![0xAA, 0xBB, 0xCC, 0xDD, 0xEE]
        }
    );
}

#[test]
fn v3_contiguous() {
    let mut buf = vec![3u8, 1]; // version=3, class=1 (contiguous)
    buf.extend_from_slice(&0x1000u64.to_le_bytes()); // address
    buf.extend_from_slice(&256u64.to_le_bytes()); // size
    let layout = DataLayout::parse(&buf, 8, 8).unwrap();
    assert_eq!(
        layout,
        DataLayout::Contiguous {
            address: Some(0x1000),
            size: 256,
        }
    );
}

#[test]
fn v3_contiguous_undefined_address() {
    let mut buf = vec![3u8, 1];
    buf.extend_from_slice(&[0xFF; 8]); // undefined address
    buf.extend_from_slice(&0u64.to_le_bytes()); // size
    let layout = DataLayout::parse(&buf, 8, 8).unwrap();
    assert_eq!(
        layout,
        DataLayout::Contiguous {
            address: None,
            size: 0,
        }
    );
}

#[test]
fn v3_chunked() {
    let mut buf = vec![3u8, 2]; // version=3, class=2 (chunked)
    buf.push(3); // dimensionality=3 (rank+1)
    buf.extend_from_slice(&0x2000u64.to_le_bytes()); // btree address
    // 3 chunk dim sizes × 4 bytes
    buf.extend_from_slice(&100u32.to_le_bytes());
    buf.extend_from_slice(&200u32.to_le_bytes());
    buf.extend_from_slice(&8u32.to_le_bytes()); // last = element size
    let layout = DataLayout::parse(&buf, 8, 8).unwrap();
    assert_eq!(
        layout,
        DataLayout::Chunked {
            chunk_dimensions: vec![100, 200, 8],
            btree_address: Some(0x2000),
            version: 3,
            chunk_index_type: None,
            single_chunk_filtered_size: None,
            single_chunk_filter_mask: None,
        }
    );
}

#[test]
fn v4_compact() {
    let mut buf = vec![4u8, 0]; // version=4, class=0
    buf.extend_from_slice(&3u16.to_le_bytes());
    buf.extend_from_slice(&[1, 2, 3]);
    let layout = DataLayout::parse(&buf, 8, 8).unwrap();
    assert_eq!(layout, DataLayout::Compact { data: vec![1, 2, 3] });
}

#[test]
fn v4_contiguous() {
    let mut buf = vec![4u8, 1];
    buf.extend_from_slice(&0x5000u64.to_le_bytes());
    buf.extend_from_slice(&512u64.to_le_bytes());
    let layout = DataLayout::parse(&buf, 8, 8).unwrap();
    assert_eq!(
        layout,
        DataLayout::Contiguous {
            address: Some(0x5000),
            size: 512,
        }
    );
}

#[test]
fn v4_chunked_single_chunk_no_filters() {
    let mut buf = vec![4u8, 2]; // version=4, class=2
    buf.push(0); // flags (no filters)
    buf.push(2); // dimensionality=2
    buf.push(4); // dim_size_encoded_length=4
    buf.extend_from_slice(&64u32.to_le_bytes()); // dim 0
    buf.extend_from_slice(&32u32.to_le_bytes()); // dim 1
    buf.push(1); // chunk_index_type=1 (single chunk)
    buf.extend_from_slice(&0x3000u64.to_le_bytes()); // chunk address
    let layout = DataLayout::parse(&buf, 8, 8).unwrap();
    assert_eq!(
        layout,
        DataLayout::Chunked {
            chunk_dimensions: vec![64, 32],
            btree_address: Some(0x3000),
            version: 4,
            chunk_index_type: Some(1),
            single_chunk_filtered_size: None,
            single_chunk_filter_mask: None,
        }
    );
}

#[test]
fn v4_chunked_single_chunk_with_filters() {
    let mut buf = vec![4u8, 2]; // version=4, class=2
    buf.push(0x02); // flags bit 1 = single chunk with filter
    buf.push(1); // dimensionality=1
    buf.push(4); // dim_size_encoded_length=4
    buf.extend_from_slice(&128u32.to_le_bytes()); // dim 0
    buf.push(1); // chunk_index_type=1 (single chunk)
    // filters present: filtered_size(8) + filter_mask(4) + address(8)
    buf.extend_from_slice(&1024u64.to_le_bytes()); // filtered size
    buf.extend_from_slice(&0u32.to_le_bytes()); // filter mask
    buf.extend_from_slice(&0x4000u64.to_le_bytes()); // address
    let layout = DataLayout::parse(&buf, 8, 8).unwrap();
    assert_eq!(
        layout,
        DataLayout::Chunked {
            chunk_dimensions: vec![128],
            btree_address: Some(0x4000),
            version: 4,
            chunk_index_type: Some(1),
            single_chunk_filtered_size: Some(1024),
            single_chunk_filter_mask: Some(0),
        }
    );
}

#[test]
fn data_layout_invalid_version() {
    let buf = vec![5u8, 0, 0, 0];
    let err = DataLayout::parse(&buf, 8, 8).unwrap_err();
    assert_eq!(err, FormatError::InvalidLayoutVersion(5));
}

#[test]
fn invalid_class_v3() {
    let buf = vec![3u8, 5];
    let err = DataLayout::parse(&buf, 8, 8).unwrap_err();
    assert_eq!(err, FormatError::InvalidLayoutClass(5));
}

#[test]
fn invalid_class_v4() {
    let buf = vec![4u8, 7];
    let err = DataLayout::parse(&buf, 8, 8).unwrap_err();
    assert_eq!(err, FormatError::InvalidLayoutClass(7));
}

#[test]
fn v3_contiguous_4byte_offsets() {
    let mut buf = vec![3u8, 1];
    buf.extend_from_slice(&0x800u32.to_le_bytes());
    buf.extend_from_slice(&24u32.to_le_bytes());
    let layout = DataLayout::parse(&buf, 4, 4).unwrap();
    assert_eq!(
        layout,
        DataLayout::Contiguous {
            address: Some(0x800),
            size: 24,
        }
    );
}

#[test]
fn v4_virtual() {
    let buf = vec![4u8, 3];
    let layout = DataLayout::parse(&buf, 8, 8).unwrap();
    assert_eq!(layout, DataLayout::Virtual { version: 4 });
}

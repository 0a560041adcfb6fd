//! Tests of the module `filter_pipeline`.

use rustyhdf5_format::error::FormatError;
use rustyhdf5_format::filter_pipeline::{
    FILTER_DEFLATE, FILTER_FLETCHER32, FILTER_SHUFFLE, FilterDescription, FilterPipeline,
};

#[test]
fn parse_v1_single_deflate() {
    // v1 pipeline with 1 filter: deflate (id=1) level 6
    let mut buf = vec![1u8, 1]; // version=1, nfilters=1
    buf.extend_from_slice(&[0u8; 6]); // reserved
    buf.extend_from_slice(&FILTER_DEFLATE.to_le_bytes()); // filter_id=1
    buf.extend_from_slice(&0u16.to_le_bytes()); // name_length
    buf.extend_from_slice(&0u16.to_le_bytes()); // flags
    buf.extend_from_slice(&1u16.to_le_bytes()); // nclient
    buf.extend_from_slice(&6u32.to_le_bytes()); // level=6
    // odd client data count => 4 bytes padding
    buf.extend_from_slice(&[0u8; 4]);

    let fp = FilterPipeline::parse(&buf).unwrap();
    assert_eq!(fp.version, 1);
    assert_eq!(fp.filters.len(), 1);
    assert_eq!(fp.filters[0].filter_id, FILTER_DEFLATE);
    assert_eq!(fp.filters[0].client_data, vec![6]);
    assert_eq!(fp.filters[0].name, None);
}

#[test]
fn parse_v1_shuffle_and_deflate() {
    let mut buf = vec![1u8, 2];
    buf.extend_from_slice(&[0u8; 6]);
    // shuffle (id=2)
    buf.extend_from_slice(&FILTER_SHUFFLE.to_le_bytes());
    buf.extend_from_slice(&0u16.to_le_bytes());
    buf.extend_from_slice(&0u16.to_le_bytes());
    buf.extend_from_slice(&0u16.to_le_bytes());
    // deflate (id=1)
    buf.extend_from_slice(&FILTER_DEFLATE.to_le_bytes());
    buf.extend_from_slice(&0u16.to_le_bytes());
    buf.extend_from_slice(&0u16.to_le_bytes());
    buf.extend_from_slice(&1u16.to_le_bytes());
    buf.extend_from_slice(&6u32.to_le_bytes());
    buf.extend_from_slice(&[0u8; 4]); // padding for odd client data

    let fp = FilterPipeline::parse(&buf).unwrap();
    assert_eq!(fp.filters.len(), 2);
    assert_eq!(fp.filters[0].filter_id, FILTER_SHUFFLE);
    assert_eq!(fp.filters[1].filter_id, FILTER_DEFLATE);
    assert_eq!(fp.filters[1].client_data, vec![6]);
}

#[test]
fn parse_v2_deflate() {
    let mut buf = vec![2u8, 1]; // version=2, nfilters=1
    buf.extend_from_slice(&FILTER_DEFLATE.to_le_bytes()); // id=1
    buf.extend_from_slice(&0u16.to_le_bytes()); // flags
    buf.extend_from_slice(&1u16.to_le_bytes()); // nclient
    buf.extend_from_slice(&6u32.to_le_bytes()); // level=6

    let fp = FilterPipeline::parse(&buf).unwrap();
    assert_eq!(fp.version, 2);
    assert_eq!(fp.filters.len(), 1);
    assert_eq!(fp.filters[0].filter_id, FILTER_DEFLATE);
    assert_eq!(fp.filters[0].client_data, vec![6]);
}

#[test]
fn parse_v2_three_filters() {
    let mut buf = vec![2u8, 3]; // version=2, nfilters=3
    // shuffle (id=2)
    buf.extend_from_slice(&FILTER_SHUFFLE.to_le_bytes());
    buf.extend_from_slice(&0u16.to_le_bytes());
    buf.extend_from_slice(&0u16.to_le_bytes());
    // deflate (id=1)
    buf.extend_from_slice(&FILTER_DEFLATE.to_le_bytes());
    buf.extend_from_slice(&0u16.to_le_bytes());
    buf.extend_from_slice(&1u16.to_le_bytes());
    buf.extend_from_slice(&6u32.to_le_bytes());
    // fletcher32 (id=3)
    buf.extend_from_slice(&FILTER_FLETCHER32.to_le_bytes());
    buf.extend_from_slice(&0u16.to_le_bytes());
    buf.extend_from_slice(&0u16.to_le_bytes());

    let fp = FilterPipeline::parse(&buf).unwrap();
    assert_eq!(fp.filters.len(), 3);
    assert_eq!(fp.filters[0].filter_id, FILTER_SHUFFLE);
    assert_eq!(fp.filters[1].filter_id, FILTER_DEFLATE);
    assert_eq!(fp.filters[2].filter_id, FILTER_FLETCHER32);
}

#[test]
fn serialize_parse_roundtrip_v1() {
    let pipeline = FilterPipeline {
        version: 1,
        filters: vec![
            FilterDescription {
                filter_id: FILTER_SHUFFLE,
                name: None,
                flags: 0,
                client_data: vec![],
            },
            FilterDescription {
                filter_id: FILTER_DEFLATE,
                name: None,
                flags: 0,
                client_data: vec![6],
            },
        ],
    };
    let serialized = pipeline.serialize();
    let parsed = FilterPipeline::parse(&serialized).unwrap();
    assert_eq!(parsed, pipeline);
}

#[test]
fn serialize_parse_roundtrip_v2() {
    let pipeline = FilterPipeline {
        version: 2,
        filters: vec![
            FilterDescription {
                filter_id: FILTER_DEFLATE,
                name: None,
                flags: 0,
                client_data: vec![9],
            },
            FilterDescription {
                filter_id: FILTER_FLETCHER32,
                name: None,
                flags: 0,
                client_data: vec![],
            },
        ],
    };
    let serialized = pipeline.serialize();
    let parsed = FilterPipeline::parse(&serialized).unwrap();
    assert_eq!(parsed, pipeline);
}

#[test]
fn custom_filter_with_name_v1() {
    let mut buf = vec![1u8, 1];
    buf.extend_from_slice(&[0u8; 6]);
    // custom filter: id=300 (>=256), name_length=11 ("myfilter\0" padded to 8)
    buf.extend_from_slice(&300u16.to_le_bytes());
    let name = b"myfilter\0"; // 9 bytes, pad to 16
    buf.extend_from_slice(&(name.len() as u16).to_le_bytes());
    buf.extend_from_slice(&0u16.to_le_bytes()); // flags
    buf.extend_from_slice(&2u16.to_le_bytes()); // nclient=2
    // name padded to 8-byte boundary: 9 bytes -> 16 bytes
    buf.extend_from_slice(name);
    buf.extend_from_slice(&[0u8; 7]); // pad 9->16
    // client data: 2 values (even, no padding needed)
    buf.extend_from_slice(&42u32.to_le_bytes());
    buf.extend_from_slice(&99u32.to_le_bytes());

    let fp = FilterPipeline::parse(&buf).unwrap();
    assert_eq!(fp.filters[0].filter_id, 300);
    assert_eq!(fp.filters[0].name, Some("myfilter".to_string()));
    assert_eq!(fp.filters[0].client_data, vec![42, 99]);
}

#[test]
fn custom_filter_with_name_v2() {
    let mut buf = vec![2u8, 1];
    // id=300 (>=256), so name_length field present
    buf.extend_from_slice(&300u16.to_le_bytes());
    let name = b"custom\0";
    buf.extend_from_slice(&(name.len() as u16).to_le_bytes());
    buf.extend_from_slice(&0u16.to_le_bytes()); // flags
    buf.extend_from_slice(&0u16.to_le_bytes()); // nclient=0
    buf.extend_from_slice(name);

    let fp = FilterPipeline::parse(&buf).unwrap();
    assert_eq!(fp.filters[0].filter_id, 300);
    assert_eq!(fp.filters[0].name, Some("custom".to_string()));
}

#[test]
fn filter_pipeline_invalid_version() {
    let buf = vec![3u8, 0];
    let err = FilterPipeline::parse(&buf).unwrap_err();
    assert_eq!(err, FormatError::InvalidFilterPipelineVersion(3));
}

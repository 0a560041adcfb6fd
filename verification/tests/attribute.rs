//! Tests of the module `attribute`.

use rustyhdf5_format::attribute::{AttributeMessage, extract_attributes, find_attribute};
use rustyhdf5_format::data_read::Number;
use rustyhdf5_format::dataspace::{Dataspace, DataspaceType};
use rustyhdf5_format::datatype::{Datatype, DatatypeByteOrder};
use rustyhdf5_format::error::FormatError;
use rustyhdf5_format::message_type::MessageType;
use rustyhdf5_format::object_header::ObjectHeader;
use rustyhdf5_format::utils::pad8;

/// The value of a number as an `f64`.
fn to_f64(n: &Number) -> f64 {
    match *n {
        Number::Single(bits) => f32::from_bits(bits) as f64,
        Number::Double(bits) => f64::from_bits(bits),
        Number::Signed(v) => v as f64,
        Number::Unsigned(v) => v as f64,
    }
}

/// The values of an attribute as `f64`.
fn floats(attr: &AttributeMessage) -> Vec<f64> {
    attr.numbers_for_f64().unwrap().iter().map(to_f64).collect()
}

/// Build a datatype header for testing (8 bytes).
fn build_dt_header(class: u8, version: u8, bf: [u8; 3], size: u32) -> Vec<u8> {
    let mut buf = vec![0u8; 8];
    buf[0] = (class & 0x0F) | ((version & 0x0F) << 4);
    buf[1] = bf[0];
    buf[2] = bf[1];
    buf[3] = bf[2];
    buf[4..8].copy_from_slice(&size.to_le_bytes());
    buf
}

/// Build an f64 LE datatype message.
fn build_f64_dt() -> Vec<u8> {
    let mut buf = build_dt_header(1, 1, [0x00, 0x00, 0x02], 8);
    let mut props = [0u8; 12];
    props[2..4].copy_from_slice(&64u16.to_le_bytes()); // bit_precision
    props[4] = 52; // exp_location
    props[5] = 11; // exp_size
    props[6] = 0; // mant_location
    props[7] = 52; // mant_size
    props[8..12].copy_from_slice(&1023u32.to_le_bytes()); // exp_bias
    buf.extend_from_slice(&props);
    buf
}

/// Build a scalar dataspace (v2).
fn build_scalar_ds() -> Vec<u8> {
    vec![2, 0, 0, 0] // version=2, rank=0, flags=0, type=0(scalar)
}

/// Build a simple 1D dataspace (v1).
fn build_simple_ds_v1(dim: u64) -> Vec<u8> {
    let mut buf = vec![1u8, 1, 0, 0, 0, 0, 0, 0]; // version=1, rank=1, flags=0, reserved(5)
    buf.extend_from_slice(&dim.to_le_bytes());
    buf
}

/// Build a fixed-length string datatype.
fn build_string_dt(size: u32) -> Vec<u8> {
    // class=3, version=1, padding=NullPad(1), charset=ASCII(0) → bf0=0x01
    build_dt_header(3, 1, [0x01, 0, 0], size)
}

#[test]
fn parse_v1_attribute_f64_scalar() {
    let name = b"temp\0";
    let dt_bytes = build_f64_dt();
    let ds_bytes = build_scalar_ds();

    let name_size = name.len();
    let dt_size = dt_bytes.len();
    let ds_size = ds_bytes.len();

    let mut data = Vec::new();
    data.push(1); // version
    data.push(0); // reserved
    data.extend_from_slice(&(name_size as u16).to_le_bytes());
    data.extend_from_slice(&(dt_size as u16).to_le_bytes());
    data.extend_from_slice(&(ds_size as u16).to_le_bytes());

    // Name padded to 8 bytes
    data.extend_from_slice(name);
    while data.len() % 8 != 0 || data.len() == 8 {
        // Pad name to 8-byte boundary from start of name
        let name_start = 8;
        let name_padded = pad8(name_size);
        while data.len() < name_start + name_padded {
            data.push(0);
        }
        break;
    }

    // Datatype padded to 8 bytes
    let dt_start = data.len();
    data.extend_from_slice(&dt_bytes);
    let dt_padded = pad8(dt_size);
    while data.len() < dt_start + dt_padded {
        data.push(0);
    }

    // Dataspace padded to 8 bytes
    let ds_start = data.len();
    data.extend_from_slice(&ds_bytes);
    let ds_padded = pad8(ds_size);
    while data.len() < ds_start + ds_padded {
        data.push(0);
    }

    // Raw data: f64 value 98.6
    data.extend_from_slice(&98.6f64.to_le_bytes());

    let attr = AttributeMessage::parse(&data, 8).unwrap();
    assert_eq!(attr.name, "temp");
    assert_eq!(attr.dataspace.num_elements(), 1);
    let vals = floats(&attr);
    assert_eq!(vals.len(), 1);
    assert!((vals[0] - 98.6).abs() < 1e-10);
}

#[test]
fn parse_v2_attribute_fixed_string() {
    let name = b"label\0";
    let dt_bytes = build_string_dt(5);
    let ds_bytes = build_scalar_ds();

    let mut data = Vec::new();
    data.push(2); // version
    data.push(0); // flags
    data.extend_from_slice(&(name.len() as u16).to_le_bytes());
    data.extend_from_slice(&(dt_bytes.len() as u16).to_le_bytes());
    data.extend_from_slice(&(ds_bytes.len() as u16).to_le_bytes());

    // No padding in v2
    data.extend_from_slice(name);
    data.extend_from_slice(&dt_bytes);
    data.extend_from_slice(&ds_bytes);

    // Raw data: "hello"
    data.extend_from_slice(b"hello");

    let attr = AttributeMessage::parse(&data, 8).unwrap();
    assert_eq!(attr.name, "label");
    let s = attr.read_as_string().unwrap();
    assert_eq!(s, "hello");
}

#[test]
fn parse_v3_attribute_utf8() {
    let name = b"note\0";
    let dt_bytes = build_string_dt(3);
    let ds_bytes = build_scalar_ds();

    let mut data = Vec::new();
    data.push(3); // version
    data.push(0); // flags
    data.extend_from_slice(&(name.len() as u16).to_le_bytes());
    data.extend_from_slice(&(dt_bytes.len() as u16).to_le_bytes());
    data.extend_from_slice(&(ds_bytes.len() as u16).to_le_bytes());
    data.push(1); // encoding = UTF-8

    data.extend_from_slice(name);
    data.extend_from_slice(&dt_bytes);
    data.extend_from_slice(&ds_bytes);
    data.extend_from_slice(b"abc");

    let attr = AttributeMessage::parse(&data, 8).unwrap();
    assert_eq!(attr.name, "note");
    let s = attr.read_as_string().unwrap();
    assert_eq!(s, "abc");
}

#[test]
fn parse_v2_attribute_1d_array() {
    let name = b"vals\0";
    let dt_bytes = build_f64_dt();
    let ds_bytes = build_simple_ds_v1(3);

    let mut data = Vec::new();
    data.push(2); // version
    data.push(0); // flags
    data.extend_from_slice(&(name.len() as u16).to_le_bytes());
    data.extend_from_slice(&(dt_bytes.len() as u16).to_le_bytes());
    data.extend_from_slice(&(ds_bytes.len() as u16).to_le_bytes());

    data.extend_from_slice(name);
    data.extend_from_slice(&dt_bytes);
    data.extend_from_slice(&ds_bytes);

    // 3 f64 values
    data.extend_from_slice(&1.0f64.to_le_bytes());
    data.extend_from_slice(&2.0f64.to_le_bytes());
    data.extend_from_slice(&3.0f64.to_le_bytes());

    let attr = AttributeMessage::parse(&data, 8).unwrap();
    assert_eq!(attr.name, "vals");
    let vals = floats(&attr);
    assert_eq!(vals, vec![1.0, 2.0, 3.0]);
}

#[test]
fn parse_v1_padding_alignment() {
    // Verify v1 pads name, dt, ds each to 8 bytes
    let name = b"x\0"; // 2 bytes → pad to 8
    let dt_bytes = build_f64_dt(); // 20 bytes → pad to 24
    let ds_bytes = build_scalar_ds(); // 4 bytes → pad to 8

    let mut data = Vec::new();
    data.push(1); // version
    data.push(0); // reserved
    data.extend_from_slice(&(name.len() as u16).to_le_bytes());
    data.extend_from_slice(&(dt_bytes.len() as u16).to_le_bytes());
    data.extend_from_slice(&(ds_bytes.len() as u16).to_le_bytes());

    // Name padded to 8
    data.extend_from_slice(name);
    data.resize(8 + pad8(name.len()), 0);

    // DT padded to 8
    let dt_start = data.len();
    data.extend_from_slice(&dt_bytes);
    data.resize(dt_start + pad8(dt_bytes.len()), 0);

    // DS padded to 8
    let ds_start = data.len();
    data.extend_from_slice(&ds_bytes);
    data.resize(ds_start + pad8(ds_bytes.len()), 0);

    // raw data
    data.extend_from_slice(&42.0f64.to_le_bytes());

    let attr = AttributeMessage::parse(&data, 8).unwrap();
    assert_eq!(attr.name, "x");
    let vals = floats(&attr);
    assert_eq!(vals, vec![42.0]);
}

#[test]
fn parse_v2_no_padding() {
    // Same as parse_v2_attribute_fixed_string but verifying no padding
    let name = b"ab\0"; // 3 bytes, no padding
    let dt_bytes = build_string_dt(2); // 8 bytes, no padding
    let ds_bytes = build_scalar_ds(); // 4 bytes, no padding

    let mut data = Vec::new();
    data.push(2);
    data.push(0);
    data.extend_from_slice(&(name.len() as u16).to_le_bytes());
    data.extend_from_slice(&(dt_bytes.len() as u16).to_le_bytes());
    data.extend_from_slice(&(ds_bytes.len() as u16).to_le_bytes());
    data.extend_from_slice(name);
    data.extend_from_slice(&dt_bytes);
    data.extend_from_slice(&ds_bytes);
    data.extend_from_slice(b"hi");

    let attr = AttributeMessage::parse(&data, 8).unwrap();
    assert_eq!(attr.name, "ab");
    assert_eq!(attr.read_as_string().unwrap(), "hi");
}

#[test]
fn truncated_attribute_error() {
    let data = [1u8]; // too short
    let err = AttributeMessage::parse(&data, 8).unwrap_err();
    assert!(matches!(err, FormatError::UnexpectedEof { .. }));
}

#[test]
fn attribute_invalid_version_error() {
    let data = [5u8, 0, 0, 0, 0, 0, 0, 0, 0, 0];
    let err = AttributeMessage::parse(&data, 8).unwrap_err();
    assert_eq!(err, FormatError::InvalidAttributeVersion(5));
}

#[test]
fn extract_attributes_from_header() {
    // Build a fake ObjectHeader with 3 attribute messages
    let mut msgs = Vec::new();
    for i in 0..3 {
        let name = format!("attr{}\0", i);
        let dt_bytes = build_f64_dt();
        let ds_bytes = build_scalar_ds();

        let mut attr_data = Vec::new();
        attr_data.push(2); // version
        attr_data.push(0);
        attr_data.extend_from_slice(&(name.len() as u16).to_le_bytes());
        attr_data.extend_from_slice(&(dt_bytes.len() as u16).to_le_bytes());
        attr_data.extend_from_slice(&(ds_bytes.len() as u16).to_le_bytes());
        attr_data.extend_from_slice(name.as_bytes());
        attr_data.extend_from_slice(&dt_bytes);
        attr_data.extend_from_slice(&ds_bytes);
        attr_data.extend_from_slice(&((i as f64) * 1.0).to_le_bytes());

        msgs.push(rustyhdf5_format::object_header::HeaderMessage {
            msg_type: MessageType::Attribute,
            size: attr_data.len(),
            flags: 0,
            creation_order: None,
            data: attr_data,
        });
    }

    let header = ObjectHeader {
        version: 2,
        messages: msgs,
        reference_count: None,
        flags: 0,
        access_time: None,
        modification_time: None,
        change_time: None,
        birth_time: None,
    };

    let attrs = extract_attributes(&header, 8).unwrap();
    assert_eq!(attrs.len(), 3);
    assert_eq!(attrs[0].name, "attr0");
    assert_eq!(attrs[1].name, "attr1");
    assert_eq!(attrs[2].name, "attr2");
}

#[test]
fn find_attribute_by_name() {
    let name = b"target\0";
    let dt_bytes = build_f64_dt();
    let ds_bytes = build_scalar_ds();

    let mut attr_data = Vec::new();
    attr_data.push(2);
    attr_data.push(0);
    attr_data.extend_from_slice(&(name.len() as u16).to_le_bytes());
    attr_data.extend_from_slice(&(dt_bytes.len() as u16).to_le_bytes());
    attr_data.extend_from_slice(&(ds_bytes.len() as u16).to_le_bytes());
    attr_data.extend_from_slice(name);
    attr_data.extend_from_slice(&dt_bytes);
    attr_data.extend_from_slice(&ds_bytes);
    attr_data.extend_from_slice(&99.0f64.to_le_bytes());

    let attr = AttributeMessage::parse(&attr_data, 8).unwrap();
    let attrs = vec![attr];

    assert!(find_attribute(&attrs, "target").is_some());
    assert!(find_attribute(&attrs, "missing").is_none());
}

#[test]
fn read_as_f64_scalar() {
    let name = b"v\0";
    let dt_bytes = build_f64_dt();
    let ds_bytes = build_scalar_ds();

    let mut data = Vec::new();
    data.push(2);
    data.push(0);
    data.extend_from_slice(&(name.len() as u16).to_le_bytes());
    data.extend_from_slice(&(dt_bytes.len() as u16).to_le_bytes());
    data.extend_from_slice(&(ds_bytes.len() as u16).to_le_bytes());
    data.extend_from_slice(name);
    data.extend_from_slice(&dt_bytes);
    data.extend_from_slice(&ds_bytes);
    data.extend_from_slice(&3.14f64.to_le_bytes());

    let attr = AttributeMessage::parse(&data, 8).unwrap();
    let vals = floats(&attr);
    assert_eq!(vals, vec![3.14]);
}

#[test]
fn read_as_string_fixed() {
    let name = b"s\0";
    let dt_bytes = build_string_dt(5);
    let ds_bytes = build_scalar_ds();

    let mut data = Vec::new();
    data.push(2);
    data.push(0);
    data.extend_from_slice(&(name.len() as u16).to_le_bytes());
    data.extend_from_slice(&(dt_bytes.len() as u16).to_le_bytes());
    data.extend_from_slice(&(ds_bytes.len() as u16).to_le_bytes());
    data.extend_from_slice(name);
    data.extend_from_slice(&dt_bytes);
    data.extend_from_slice(&ds_bytes);
    data.extend_from_slice(b"world");

    let attr = AttributeMessage::parse(&data, 8).unwrap();
    assert_eq!(attr.read_as_string().unwrap(), "world");
}

#[test]
fn read_as_strings_array() {
    let name = b"arr\0";
    let dt_bytes = build_string_dt(4);
    let ds_bytes = build_simple_ds_v1(2);

    let mut data = Vec::new();
    data.push(2);
    data.push(0);
    data.extend_from_slice(&(name.len() as u16).to_le_bytes());
    data.extend_from_slice(&(dt_bytes.len() as u16).to_le_bytes());
    data.extend_from_slice(&(ds_bytes.len() as u16).to_le_bytes());
    data.extend_from_slice(name);
    data.extend_from_slice(&dt_bytes);
    data.extend_from_slice(&ds_bytes);
    data.extend_from_slice(b"abcdEFGH");

    let attr = AttributeMessage::parse(&data, 8).unwrap();
    let strs = attr.read_as_strings().unwrap();
    assert_eq!(strs, vec!["abcd", "EFGH"]);
}

#[test]
fn readable_parts_make_a_readable_attribute() {
    let types = [
        Datatype::u16_le(),
        Datatype::Opaque { size: 2, tag: b"pair".to_vec() },
        Datatype::BitField {
            size: 2,
            byte_order: DatatypeByteOrder::BigEndian,
            bit_offset: 1,
            bit_precision: 9,
        },
        Datatype::Array { base_type: Box::new(Datatype::i8_le()), dimensions: vec![2] },
    ];
    let spaces = [
        (DataspaceType::Simple, vec![3u64], 3usize),
        (DataspaceType::Simple, vec![2, 2], 4),
        (DataspaceType::Scalar, vec![], 1),
        (DataspaceType::Null, vec![], 0),
    ];
    for t in &types {
        let (back, _) = Datatype::parse(&t.serialize()).unwrap();
        assert_eq!(&back, t);
        for (space_type, dims, n) in &spaces {
            let a = AttributeMessage {
                name: "größe".to_string(),
                datatype: t.clone(),
                dataspace: Dataspace {
                    space_type: *space_type,
                    rank: dims.len() as u8,
                    dimensions: dims.clone(),
                    max_dimensions: None,
                },
                raw_data: (0..2 * *n as u8).collect(),
            };
            for ls in [2u8, 4, 8] {
                for d in [a.serialize(ls), a.serialize_v3(ls)] {
                    let b = AttributeMessage::parse(&d, ls).unwrap();
                    assert_eq!(b.name, a.name);
                    assert_eq!(b.datatype, a.datatype);
                    assert_eq!(b.dataspace, a.dataspace);
                    assert_eq!(b.raw_data, a.raw_data);
                }
            }
        }
    }
}

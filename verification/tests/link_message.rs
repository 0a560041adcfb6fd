//! Tests of the module `link_message`.

use rustyhdf5_format::datatype::CharacterSet;
use rustyhdf5_format::error::FormatError;
use rustyhdf5_format::link_message::{LinkMessage, LinkTarget};

/// Build a hard link message with given parameters.
fn build_hard_link(
    name: &str,
    addr: u64,
    offset_size: u8,
    creation_order: Option<u64>,
    charset: Option<u8>,
    name_size_width: u8, // 1, 2, 4
) -> Vec<u8> {
    let mut buf = Vec::new();
    buf.push(1); // version

    let mut flags: u8 = 0;
    // Bits 0-1: name length field size
    let size_bits = match name_size_width {
        1 => 0u8,
        2 => 1,
        4 => 2,
        8 => 3,
        _ => 0,
    };
    flags |= size_bits;
    // Bit 2: creation order present
    if creation_order.is_some() {
        flags |= 0x04;
    }
    // hard link: don't set bit 3 (link type field not present)
    // Bit 4: charset present
    if charset.is_some() {
        flags |= 0x10;
    }
    buf.push(flags);

    // no link_type field for hard links (bit 1 not set)

    if let Some(co) = creation_order {
        buf.extend_from_slice(&co.to_le_bytes());
    }

    if let Some(cs) = charset {
        buf.push(cs);
    }

    // name length
    let name_len = name.len();
    match name_size_width {
        1 => buf.push(name_len as u8),
        2 => buf.extend_from_slice(&(name_len as u16).to_le_bytes()),
        4 => buf.extend_from_slice(&(name_len as u32).to_le_bytes()),
        8 => buf.extend_from_slice(&(name_len as u64).to_le_bytes()),
        _ => {}
    }

    buf.extend_from_slice(name.as_bytes());

    // hard link data: address
    match offset_size {
        4 => buf.extend_from_slice(&(addr as u32).to_le_bytes()),
        8 => buf.extend_from_slice(&addr.to_le_bytes()),
        _ => {}
    }

    buf
}

#[test]
fn hard_link_ascii_no_creation_order() {
    let data = build_hard_link("mydata", 0x1000, 8, None, None, 1);
    let msg = LinkMessage::parse(&data, 8).unwrap();
    assert_eq!(msg.name, "mydata");
    assert_eq!(
        msg.link_target,
        LinkTarget::Hard {
            object_header_address: 0x1000
        }
    );
    assert_eq!(msg.creation_order, None);
    assert_eq!(msg.charset, CharacterSet::Ascii);
}

#[test]
fn hard_link_utf8_with_creation_order() {
    let data = build_hard_link("données", 0x2000, 8, Some(42), Some(1), 1);
    let msg = LinkMessage::parse(&data, 8).unwrap();
    assert_eq!(msg.name, "données");
    assert_eq!(
        msg.link_target,
        LinkTarget::Hard {
            object_header_address: 0x2000
        }
    );
    assert_eq!(msg.creation_order, Some(42));
    assert_eq!(msg.charset, CharacterSet::Utf8);
}

#[test]
fn soft_link() {
    let target = "/group1/dataset";
    let mut data = Vec::new();
    data.push(1); // version
    data.push(0x08); // flags: bit 3 = link type present, name size = 1 byte (bits 0-1 = 0)
    data.push(1); // link type = soft
    data.push(4); // name length = 4
    data.extend_from_slice(b"link");
    data.extend_from_slice(&(target.len() as u16).to_le_bytes());
    data.extend_from_slice(target.as_bytes());

    let msg = LinkMessage::parse(&data, 8).unwrap();
    assert_eq!(msg.name, "link");
    assert_eq!(
        msg.link_target,
        LinkTarget::Soft {
            target_path: target.to_string()
        }
    );
}

#[test]
fn name_length_2bytes() {
    let data = build_hard_link("test", 0x500, 8, None, None, 2);
    let msg = LinkMessage::parse(&data, 8).unwrap();
    assert_eq!(msg.name, "test");
}

#[test]
fn name_length_4bytes() {
    let data = build_hard_link("abcd", 0x600, 8, None, None, 4);
    let msg = LinkMessage::parse(&data, 8).unwrap();
    assert_eq!(msg.name, "abcd");
}

#[test]
fn link_message_invalid_version() {
    let data = vec![2, 0, 0, 0]; // version 2
    let err = LinkMessage::parse(&data, 8).unwrap_err();
    assert_eq!(err, FormatError::InvalidLinkVersion(2));
}

#[test]
fn invalid_link_type() {
    let mut data = Vec::new();
    data.push(1); // version
    data.push(0x08); // flags: bit 3 = link type present
    data.push(99); // invalid link type
    data.push(1); // name length = 1
    data.push(b'x');
    let err = LinkMessage::parse(&data, 8).unwrap_err();
    assert_eq!(err, FormatError::InvalidLinkType(99));
}

//! Tests of the module `object_header`.

use rustyhdf5_format::error::FormatError;
use rustyhdf5_format::message_type::MessageType;
use rustyhdf5_format::object_header::ObjectHeader;

// Helper: build a v1 object header with given messages
fn build_v1_header(
    messages: &[(u16, &[u8], u8)], // (type, data, flags)
    offset_size: u8,
    length_size: u8,
) -> Vec<u8> {
    let _ = (offset_size, length_size);
    // Calculate total header message data size
    let mut msg_bytes = Vec::new();
    for (mtype, mdata, mflags) in messages {
        msg_bytes.extend_from_slice(&mtype.to_le_bytes()); // type(2)
        msg_bytes.extend_from_slice(&(mdata.len() as u16).to_le_bytes()); // size(2)
        msg_bytes.push(*mflags); // flags(1)
        msg_bytes.extend_from_slice(&[0u8; 3]); // reserved(3)
        msg_bytes.extend_from_slice(mdata); // data
    }

    let mut buf = Vec::new();
    buf.push(1); // version
    buf.push(0); // reserved
    buf.extend_from_slice(&(messages.len() as u16).to_le_bytes()); // num_messages
    buf.extend_from_slice(&1u32.to_le_bytes()); // reference_count
    buf.extend_from_slice(&(msg_bytes.len() as u32).to_le_bytes()); // header_data_size
    // Pad to 8-byte alignment (12 bytes so far, pad 4)
    buf.extend_from_slice(&[0u8; 4]);
    buf.extend_from_slice(&msg_bytes);
    buf
}

// Helper: build a v2 object header chunk0 with given messages
fn build_v2_header(
    flags: u8,
    messages: &[(u8, &[u8], u8)], // (type, data, msg_flags)
    timestamps: Option<(u32, u32, u32, u32)>,
) -> Vec<u8> {
    let has_creation_order = flags & 0x04 != 0;
    let has_timestamps = flags & 0x20 != 0;
    let mut buf = Vec::new();
    buf.extend_from_slice(b"OHDR"); // 4
    buf.push(2); // version
    buf.push(flags);

    if has_timestamps {
        if let Some((at, mt, ct, bt)) = timestamps {
            buf.extend_from_slice(&at.to_le_bytes());
            buf.extend_from_slice(&mt.to_le_bytes());
            buf.extend_from_slice(&ct.to_le_bytes());
            buf.extend_from_slice(&bt.to_le_bytes());
        }
    }

    if flags & 0x10 != 0 {
        buf.extend_from_slice(&8u16.to_le_bytes()); // max_compact
        buf.extend_from_slice(&6u16.to_le_bytes()); // min_dense
    }

    // Build message bytes to get chunk size
    let mut msg_bytes = Vec::new();
    for (mtype, mdata, mflags) in messages {
        msg_bytes.push(*mtype); // type(1)
        msg_bytes.extend_from_slice(&(mdata.len() as u16).to_le_bytes()); // size(2)
        msg_bytes.push(*mflags); // flags(1)
        if has_creation_order {
            msg_bytes.extend_from_slice(&0u16.to_le_bytes()); // creation_order(2)
        }
        msg_bytes.extend_from_slice(mdata);
    }

    let chunk_size = msg_bytes.len();
    // Write chunk size based on flags bits 0-1
    match flags & 0x03 {
        0 => buf.push(chunk_size as u8),
        1 => buf.extend_from_slice(&(chunk_size as u16).to_le_bytes()),
        2 => buf.extend_from_slice(&(chunk_size as u32).to_le_bytes()),
        3 => buf.extend_from_slice(&(chunk_size as u64).to_le_bytes()),
        _ => unreachable!(),
    }

    buf.extend_from_slice(&msg_bytes);

    // Checksum (CRC32C of everything from OHDR to here)
    let checksum = rustyhdf5_format::checksum::jenkins_lookup3(&buf);
    buf.extend_from_slice(&checksum.to_le_bytes());
    buf
}

#[test]
fn parse_v1_zero_messages() {
    let data = build_v1_header(&[], 8, 8);
    let hdr = ObjectHeader::parse(&data, 0, 8, 8).unwrap();
    assert_eq!(hdr.version, 1);
    assert_eq!(hdr.messages.len(), 0);
    assert_eq!(hdr.reference_count, Some(1));
    assert_eq!(hdr.flags, 0);
}

#[test]
fn parse_v1_two_messages() {
    let messages = [
        (0x0001u16, &[1u8, 2, 3, 4][..], 0u8), // Dataspace
        (0x0008, &[5u8, 6][..], 0),              // DataLayout
    ];
    let data = build_v1_header(&messages, 8, 8);
    let hdr = ObjectHeader::parse(&data, 0, 8, 8).unwrap();
    assert_eq!(hdr.messages.len(), 2);
    assert_eq!(hdr.messages[0].msg_type, MessageType::Dataspace);
    assert_eq!(hdr.messages[0].data, vec![1, 2, 3, 4]);
    assert_eq!(hdr.messages[1].msg_type, MessageType::DataLayout);
    assert_eq!(hdr.messages[1].data, vec![5, 6]);
}

#[test]
fn parse_v1_unknown_message_ok() {
    let messages = [(0x00FFu16, &[0xAA, 0xBB][..], 0u8)];
    let data = build_v1_header(&messages, 8, 8);
    let hdr = ObjectHeader::parse(&data, 0, 8, 8).unwrap();
    assert_eq!(hdr.messages.len(), 1);
    assert_eq!(hdr.messages[0].msg_type, MessageType::Unknown(0x00FF));
}

#[test]
fn parse_v1_unknown_must_understand_errors() {
    // Bit 3 of msg_flags = must understand
    let messages = [(0x00FFu16, &[0xAA][..], 0x08u8)];
    let data = build_v1_header(&messages, 8, 8);
    let err = ObjectHeader::parse(&data, 0, 8, 8).unwrap_err();
    assert_eq!(err, FormatError::UnsupportedMessage(0x00FF));
}

#[test]
fn parse_v2_no_timestamps_one_message() {
    let data = build_v2_header(0x00, &[(0x01, &[10, 20], 0)], None);
    let hdr = ObjectHeader::parse(&data, 0, 8, 8).unwrap();
    assert_eq!(hdr.version, 2);
    assert_eq!(hdr.flags, 0);
    assert_eq!(hdr.messages.len(), 1);
    assert_eq!(hdr.messages[0].msg_type, MessageType::Dataspace);
    assert_eq!(hdr.messages[0].data, vec![10, 20]);
    assert!(hdr.access_time.is_none());
}

#[test]
fn parse_v2_with_timestamps() {
    let data = build_v2_header(
        0x20,
        &[(0x01, &[1], 0)],
        Some((100, 200, 300, 400)),
    );
    let hdr = ObjectHeader::parse(&data, 0, 8, 8).unwrap();
    assert_eq!(hdr.access_time, Some(100));
    assert_eq!(hdr.modification_time, Some(200));
    assert_eq!(hdr.change_time, Some(300));
    assert_eq!(hdr.birth_time, Some(400));
    assert_eq!(hdr.messages.len(), 1);
    // flags bit 5 = timestamps, but bit 2 not set → no creation order in messages
    assert!(hdr.messages[0].creation_order.is_none());
}

#[test]
fn parse_v2_creation_order() {
    // flags bit 2 enables attribute/message creation order tracking
    // flags bit 5 enables timestamps
    // Use 0x24 = bit 2 + bit 5
    let data = build_v2_header(
        0x24,
        &[(0x03, &[9], 0), (0x05, &[8], 0)],
        Some((0, 0, 0, 0)),
    );
    let hdr = ObjectHeader::parse(&data, 0, 8, 8).unwrap();
    assert_eq!(hdr.messages.len(), 2);
    assert!(hdr.messages[0].creation_order.is_some());
    assert!(hdr.messages[1].creation_order.is_some());
    assert_eq!(hdr.access_time, Some(0));
}

#[test]
fn parse_v2_checksum_valid() {
    let data = build_v2_header(0x00, &[(0x01, &[1, 2, 3], 0)], None);
    // Should succeed — checksum is valid
    let hdr = ObjectHeader::parse(&data, 0, 8, 8).unwrap();
    assert_eq!(hdr.messages.len(), 1);
}

#[test]
fn parse_v2_checksum_invalid() {
    let mut data = build_v2_header(0x00, &[(0x01, &[1, 2, 3], 0)], None);
    // Corrupt checksum
    let len = data.len();
    data[len - 1] ^= 0xFF;
    let err = ObjectHeader::parse(&data, 0, 8, 8).unwrap_err();
    assert!(matches!(err, FormatError::ChecksumMismatch { .. }));
}

#[test]
fn parse_v2_nil_padding_skipped() {
    let data = build_v2_header(
        0x00,
        &[
            (0x00, &[0, 0, 0, 0], 0), // NIL
            (0x01, &[42], 0),           // Dataspace
        ],
        None,
    );
    let hdr = ObjectHeader::parse(&data, 0, 8, 8).unwrap();
    assert_eq!(hdr.messages.len(), 1);
    assert_eq!(hdr.messages[0].msg_type, MessageType::Dataspace);
}

#[test]
fn parse_v2_chunk_size_1byte() {
    // flags bits 0-1 = 0 → 1-byte chunk size
    let data = build_v2_header(0x00, &[(0x01, &[1], 0)], None);
    let hdr = ObjectHeader::parse(&data, 0, 8, 8).unwrap();
    assert_eq!(hdr.messages.len(), 1);
}

#[test]
fn parse_v2_chunk_size_2byte() {
    let data = build_v2_header(0x01, &[(0x01, &[1], 0)], None);
    let hdr = ObjectHeader::parse(&data, 0, 8, 8).unwrap();
    assert_eq!(hdr.messages.len(), 1);
}

#[test]
fn parse_v2_chunk_size_4byte() {
    let data = build_v2_header(0x02, &[(0x01, &[1], 0)], None);
    let hdr = ObjectHeader::parse(&data, 0, 8, 8).unwrap();
    assert_eq!(hdr.messages.len(), 1);
}

#[test]
fn parse_v2_continuation() {
    // Build a continuation chunk (OCHK) at a known offset
    let ochk_offset = 256usize;
    let ochk_msg_type = 0x03u8; // Datatype
    let ochk_msg_data = [0xDE, 0xAD];

    // Build the OCHK chunk
    let mut ochk_buf = Vec::new();
    ochk_buf.extend_from_slice(b"OCHK");
    ochk_buf.push(ochk_msg_type);
    ochk_buf.extend_from_slice(&(ochk_msg_data.len() as u16).to_le_bytes());
    ochk_buf.push(0); // msg flags
    ochk_buf.extend_from_slice(&ochk_msg_data);
    let checksum = rustyhdf5_format::checksum::jenkins_lookup3(&ochk_buf);
    ochk_buf.extend_from_slice(&checksum.to_le_bytes());

    let ochk_length = ochk_buf.len();

    // Build continuation message data: offset(8 LE) + length(8 LE)
    let mut cont_data = Vec::new();
    cont_data.extend_from_slice(&(ochk_offset as u64).to_le_bytes());
    cont_data.extend_from_slice(&(ochk_length as u64).to_le_bytes());

    // Build main header with continuation message + a regular message
    let header = build_v2_header(
        0x00,
        &[
            (0x01, &[42], 0),       // Dataspace
            (0x10, &cont_data, 0),   // Continuation
        ],
        None,
    );

    // Assemble full "file"
    let total_size = ochk_offset + ochk_buf.len();
    let mut file_data = vec![0u8; total_size];
    file_data[..header.len()].copy_from_slice(&header);
    file_data[ochk_offset..ochk_offset + ochk_buf.len()].copy_from_slice(&ochk_buf);

    let hdr = ObjectHeader::parse(&file_data, 0, 8, 8).unwrap();
    assert_eq!(hdr.messages.len(), 2);
    assert_eq!(hdr.messages[0].msg_type, MessageType::Dataspace);
    assert_eq!(hdr.messages[1].msg_type, MessageType::Datatype);
    assert_eq!(hdr.messages[1].data, vec![0xDE, 0xAD]);
}

#[test]
fn truncated_v1_header() {
    let data = vec![1u8, 0]; // version 1, but too short
    let err = ObjectHeader::parse(&data, 0, 8, 8).unwrap_err();
    assert!(matches!(err, FormatError::UnexpectedEof { .. }));
}

#[test]
fn truncated_v2_header() {
    let data = [b'O', b'H', b'D', b'R', 2]; // signature + version, but no flags
    let err = ObjectHeader::parse(&data, 0, 8, 8).unwrap_err();
    assert!(matches!(err, FormatError::UnexpectedEof { .. }));
}

#[test]
fn fields_follow_version_and_flags() {
    let h = ObjectHeader::parse(
        &build_v1_header(&[(0x0001, &[1u8; 8], 0), (0x0000, &[0u8; 16], 0)], 8, 8), 0, 8, 8,
    )
    .unwrap();
    assert_eq!((h.version, h.flags, h.reference_count), (1, 0, Some(1)));
    assert_eq!(
        (h.access_time, h.modification_time, h.change_time, h.birth_time),
        (None, None, None, None)
    );
    assert_eq!(h.messages.len(), 1);
    assert_eq!(h.messages[0].creation_order, None);
    for flags in [0u8, 0x04, 0x10, 0x20, 0x24, 0x34] {
        let d = build_v2_header(
            flags,
            &[(0x01, &[1u8; 8], 0), (0x00, &[0u8; 5], 0), (0x03, &[2u8; 3], 0)],
            Some((1, 2, 3, 4)),
        );
        let h = ObjectHeader::parse(&d, 0, 8, 8).unwrap();
        assert_eq!((h.version, h.flags, h.reference_count), (2, flags, None));
        let timed = flags & 0x20 != 0;
        assert_eq!(h.access_time, timed.then_some(1));
        assert_eq!(h.modification_time, timed.then_some(2));
        assert_eq!(h.change_time, timed.then_some(3));
        assert_eq!(h.birth_time, timed.then_some(4));
        assert_eq!(h.messages.len(), 2);
        for m in &h.messages {
            assert_ne!(m.msg_type, MessageType::Nil);
            assert_eq!(m.data.len(), m.size);
            assert_eq!(m.creation_order.is_some(), flags & 0x04 != 0);
        }
    }
}

//! Tests of the module `group_v2`.

use rustyhdf5_format::group_v2::resolve_v2_group_entries;
use rustyhdf5_format::message_type::MessageType;
use rustyhdf5_format::object_header::ObjectHeader;

#[test]
fn compact_storage_link_messages() {
    // Build a v2 object header with Link messages (compact storage)
    let link_data = {
        // Build a Link message: hard link, name="test", addr=0x1000
        let mut d = Vec::new();
        d.push(1); // version
        d.push(0x00); // flags: no creation order, no link type (=hard), no charset, name_size=1byte
        d.push(4); // name length = 4
        d.extend_from_slice(b"test");
        d.extend_from_slice(&0x1000u64.to_le_bytes()); // address
        d
    };

    let oh = ObjectHeader {
        version: 2,
        messages: vec![
            rustyhdf5_format::object_header::HeaderMessage {
                msg_type: MessageType::LinkInfo,
                size: 18,
                flags: 0,
                creation_order: None,
                data: {
                    let mut d = Vec::new();
                    d.push(0); // version
                    d.push(0); // flags
                    d.extend_from_slice(&0xFFFF_FFFF_FFFF_FFFFu64.to_le_bytes()); // fh undef
                    d.extend_from_slice(&0xFFFF_FFFF_FFFF_FFFFu64.to_le_bytes()); // btree undef
                    d
                },
            },
            rustyhdf5_format::object_header::HeaderMessage {
                msg_type: MessageType::Link,
                size: link_data.len(),
                flags: 0,
                creation_order: None,
                data: link_data,
            },
        ],
        reference_count: None,
        flags: 0,
        access_time: None,
        modification_time: None,
        change_time: None,
        birth_time: None,
    };

    let entries = resolve_v2_group_entries(&[], &oh, 8, 8).unwrap();
    assert_eq!(entries.len(), 1);
    assert_eq!(entries[0].name, "test");
    assert_eq!(entries[0].object_header_address, 0x1000);
}

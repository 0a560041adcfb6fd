//! Tests of the module `group_info`.

use rustyhdf5_format::error::FormatError;
use rustyhdf5_format::group_info::GroupInfoMessage;

#[test]
fn with_link_phase_change() {
    let data = vec![0, 0x01, 8, 0, 6, 0]; // version=0, flags=1, max_compact=8, min_dense=6
    let msg = GroupInfoMessage::parse(&data).unwrap();
    assert_eq!(msg.max_compact, Some(8));
    assert_eq!(msg.min_dense, Some(6));
    assert_eq!(msg.estimated_num_entries, None);
}

#[test]
fn with_estimated_entry_info() {
    let data = vec![0, 0x02, 4, 0, 16, 0]; // flags=2
    let msg = GroupInfoMessage::parse(&data).unwrap();
    assert_eq!(msg.max_compact, None);
    assert_eq!(msg.estimated_num_entries, Some(4));
    assert_eq!(msg.estimated_name_length, Some(16));
}

#[test]
fn both_flags_set() {
    let data = vec![0, 0x03, 8, 0, 6, 0, 10, 0, 32, 0];
    let msg = GroupInfoMessage::parse(&data).unwrap();
    assert_eq!(msg.max_compact, Some(8));
    assert_eq!(msg.min_dense, Some(6));
    assert_eq!(msg.estimated_num_entries, Some(10));
    assert_eq!(msg.estimated_name_length, Some(32));
}

#[test]
fn no_flags() {
    let data = vec![0, 0x00];
    let msg = GroupInfoMessage::parse(&data).unwrap();
    assert_eq!(msg.max_compact, None);
    assert_eq!(msg.min_dense, None);
    assert_eq!(msg.estimated_num_entries, None);
    assert_eq!(msg.estimated_name_length, None);
}

#[test]
fn group_info_invalid_version() {
    let data = vec![1, 0];
    let err = GroupInfoMessage::parse(&data).unwrap_err();
    assert_eq!(err, FormatError::InvalidGroupInfoVersion(1));
}

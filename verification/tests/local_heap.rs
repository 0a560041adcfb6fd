//! Tests of the module `local_heap`.

use rustyhdf5_format::error::FormatError;
use rustyhdf5_format::local_heap::LocalHeap;

fn build_heap_file(
    heap_offset: usize,
    data_seg_offset: usize,
    strings: &[&str],
    offset_size: u8,
    length_size: u8,
) -> Vec<u8> {
    // Build data segment
    let mut data_seg = Vec::new();
    for s in strings {
        data_seg.extend_from_slice(s.as_bytes());
        data_seg.push(0); // null terminator
    }
    let data_seg_size = data_seg.len();

    let total_size = data_seg_offset + data_seg_size + 64;
    let mut file = vec![0u8; total_size];

    // Write heap header at heap_offset
    let mut pos = heap_offset;
    file[pos..pos + 4].copy_from_slice(b"HEAP");
    pos += 4;
    file[pos] = 0; // version
    pos += 1;
    // reserved 3
    pos += 3;
    // data_segment_size
    write_val(&mut file, pos, data_seg_size as u64, length_size);
    pos += length_size as usize;
    // free_list_head_offset
    write_val(&mut file, pos, 0xFFFFFFFF, length_size);
    pos += length_size as usize;
    // data_segment_address
    write_val(&mut file, pos, data_seg_offset as u64, offset_size);

    // Write data segment
    file[data_seg_offset..data_seg_offset + data_seg_size].copy_from_slice(&data_seg);

    file
}

fn write_val(buf: &mut [u8], pos: usize, val: u64, size: u8) {
    match size {
        4 => buf[pos..pos + 4].copy_from_slice(&(val as u32).to_le_bytes()),
        8 => buf[pos..pos + 8].copy_from_slice(&val.to_le_bytes()),
        _ => panic!("test"),
    }
}

#[test]
fn parse_heap_header() {
    let file = build_heap_file(0, 100, &["hello", "world"], 8, 8);
    let heap = LocalHeap::parse(&file, 0, 8, 8).unwrap();
    assert_eq!(heap.data_segment_address, 100);
    assert_eq!(heap.data_segment_size, 12); // "hello\0world\0"
}

#[test]
fn read_string_at_offset_0() {
    let file = build_heap_file(0, 100, &["hello", "world"], 8, 8);
    let heap = LocalHeap::parse(&file, 0, 8, 8).unwrap();
    let s = heap.read_string(&file, 0).unwrap();
    assert_eq!(s, "hello");
}

#[test]
fn read_string_at_offset_6() {
    let file = build_heap_file(0, 100, &["hello", "world"], 8, 8);
    let heap = LocalHeap::parse(&file, 0, 8, 8).unwrap();
    let s = heap.read_string(&file, 6).unwrap();
    assert_eq!(s, "world");
}

#[test]
fn local_heap_invalid_signature() {
    let mut file = build_heap_file(0, 100, &["x"], 8, 8);
    file[0] = b'X';
    let err = LocalHeap::parse(&file, 0, 8, 8).unwrap_err();
    assert_eq!(err, FormatError::InvalidLocalHeapSignature);
}

#[test]
fn read_string_past_segment() {
    let file = build_heap_file(0, 100, &["hi"], 8, 8);
    let heap = LocalHeap::parse(&file, 0, 8, 8).unwrap();
    let err = heap.read_string(&file, 100).unwrap_err();
    assert!(matches!(err, FormatError::UnexpectedEof { .. }));
}

#[test]
fn parse_heap_4byte_offsets() {
    let file = build_heap_file(0, 80, &["test"], 4, 4);
    let heap = LocalHeap::parse(&file, 0, 4, 4).unwrap();
    assert_eq!(heap.data_segment_address, 80);
    let s = heap.read_string(&file, 0).unwrap();
    assert_eq!(s, "test");
}

#[test]
fn local_heap_invalid_version() {
    let mut file = build_heap_file(0, 100, &["x"], 8, 8);
    file[4] = 1; // bad version
    let err = LocalHeap::parse(&file, 0, 8, 8).unwrap_err();
    assert_eq!(err, FormatError::InvalidLocalHeapVersion(1));
}

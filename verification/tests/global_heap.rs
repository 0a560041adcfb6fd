//! Tests of the module `global_heap`.

use rustyhdf5_format::error::FormatError;
use rustyhdf5_format::global_heap::GlobalHeapCollection;
use rustyhdf5_format::utils::pad8;

/// Build a global heap collection with given objects.
fn build_collection(
    objects: &[(u16, u16, &[u8])], // (index, ref_count, data)
    length_size: u8,
) -> Vec<u8> {
    let ls = length_size as usize;

    // Calculate total size
    let header_size = 8 + ls;
    let mut obj_size_total = 0usize;
    for (_, _, data) in objects {
        let obj_header = 8 + ls;
        obj_size_total += obj_header + pad8(data.len());
    }
    // Free space marker (2 bytes for index 0)
    obj_size_total += 2;
    let collection_size = header_size + obj_size_total;

    let mut buf = Vec::new();
    buf.extend_from_slice(b"GCOL");
    buf.push(1); // version
    buf.extend_from_slice(&[0u8; 3]); // reserved

    // collection_size
    match length_size {
        4 => buf.extend_from_slice(&(collection_size as u32).to_le_bytes()),
        8 => buf.extend_from_slice(&(collection_size as u64).to_le_bytes()),
        _ => panic!("unsupported length_size"),
    }

    // Objects
    for (index, ref_count, data) in objects {
        buf.extend_from_slice(&index.to_le_bytes());
        buf.extend_from_slice(&ref_count.to_le_bytes());
        buf.extend_from_slice(&[0u8; 4]); // reserved
        match length_size {
            4 => buf.extend_from_slice(&(data.len() as u32).to_le_bytes()),
            8 => buf.extend_from_slice(&(data.len() as u64).to_le_bytes()),
            _ => panic!("unsupported"),
        }
        buf.extend_from_slice(data);
        // Pad to 8 bytes
        let padded = pad8(data.len());
        for _ in data.len()..padded {
            buf.push(0);
        }
    }

    // Free space marker
    buf.extend_from_slice(&0u16.to_le_bytes());

    buf
}

#[test]
fn parse_collection_two_objects() {
    let data = build_collection(
        &[
            (1, 1, b"hello"),
            (2, 1, b"world!!!"),
        ],
        8,
    );
    let coll = GlobalHeapCollection::parse(&data, 0, 8).unwrap();
    assert_eq!(coll.objects.len(), 2);
    assert_eq!(coll.objects[0].index, 1);
    assert_eq!(coll.objects[0].data, b"hello");
    assert_eq!(coll.objects[1].index, 2);
    assert_eq!(coll.objects[1].data, b"world!!!");
}

#[test]
fn get_object_by_index() {
    let data = build_collection(
        &[
            (1, 1, b"aaa"),
            (3, 2, b"bbb"),
        ],
        8,
    );
    let coll = GlobalHeapCollection::parse(&data, 0, 8).unwrap();
    let obj = coll.get_object(3).unwrap();
    assert_eq!(obj.data, b"bbb");
    assert_eq!(obj.reference_count, 2);
    assert!(coll.get_object(99).is_none());
}

#[test]
fn free_space_terminates_parsing() {
    // Build collection with free space marker immediately
    let mut data = Vec::new();
    data.extend_from_slice(b"GCOL");
    data.push(1);
    data.extend_from_slice(&[0u8; 3]);
    let size = 8u64 + 8 + 2; // header + length_size + free space marker
    data.extend_from_slice(&size.to_le_bytes());
    data.extend_from_slice(&0u16.to_le_bytes()); // free space

    let coll = GlobalHeapCollection::parse(&data, 0, 8).unwrap();
    assert_eq!(coll.objects.len(), 0);
}

#[test]
fn invalid_signature_error() {
    let mut data = build_collection(&[(1, 1, b"x")], 8);
    data[0] = b'X'; // corrupt
    let err = GlobalHeapCollection::parse(&data, 0, 8).unwrap_err();
    assert_eq!(err, FormatError::InvalidGlobalHeapSignature);
}

#[test]
fn global_heap_invalid_version_error() {
    let mut data = build_collection(&[(1, 1, b"x")], 8);
    data[4] = 2; // wrong version
    let err = GlobalHeapCollection::parse(&data, 0, 8).unwrap_err();
    assert_eq!(err, FormatError::InvalidGlobalHeapVersion(2));
}

#[test]
fn parse_with_4byte_length() {
    let data = build_collection(&[(1, 1, b"test")], 4);
    let coll = GlobalHeapCollection::parse(&data, 0, 4).unwrap();
    assert_eq!(coll.objects.len(), 1);
    assert_eq!(coll.objects[0].data, b"test");
}

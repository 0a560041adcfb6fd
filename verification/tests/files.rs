//! Tests on whole files that are put together here.

use rustyhdf5_format::attribute::{extract_attributes_full, find_attribute, AttributeMessage};
use rustyhdf5_format::checksum::jenkins_lookup3;
use rustyhdf5_format::chunk_cache::ChunkCache;
use rustyhdf5_format::data_layout::DataLayout;
use rustyhdf5_format::data_read::{read_as_i32, read_raw_data, read_raw_data_cached};
use rustyhdf5_format::dataspace::Dataspace;
use rustyhdf5_format::datatype::{CharacterSet, Datatype};
use rustyhdf5_format::error::FormatError;
use rustyhdf5_format::fractal_heap::FractalHeapHeader;
use rustyhdf5_format::group_v2::resolve_path_any;
use rustyhdf5_format::link_message::{LinkMessage, LinkTarget};
use rustyhdf5_format::object_header::ObjectHeader;
use rustyhdf5_format::shared_message::parse_sohm_btree_entries;
use rustyhdf5_format::signature::{find_signature, HDF5_SIGNATURE};
use rustyhdf5_format::superblock::Superblock;
use rustyhdf5_format::type_builders::{build_attr_message, AttrValue};
use rustyhdf5_format::vl_data::read_vl_strings;

const UNDEFINED: u64 = u64::MAX;

fn superblock(root: u64) -> Superblock {
    Superblock {
        version: 3,
        offset_size: 8,
        length_size: 8,
        base_address: 0,
        eof_address: 4096,
        root_group_address: root,
        group_leaf_node_k: None,
        group_internal_node_k: None,
        indexed_storage_internal_node_k: None,
        free_space_address: None,
        driver_info_address: None,
        consistency_flags: 0,
        superblock_extension_address: Some(UNDEFINED),
        checksum: None,
    }
}

/// An object header of version 2 with the given messages.
fn object_header(messages: &[(u8, Vec<u8>)]) -> Vec<u8> {
    let mut body = Vec::new();
    for (kind, data) in messages {
        body.push(*kind);
        body.extend_from_slice(&(data.len() as u16).to_le_bytes());
        body.push(0);
        body.extend_from_slice(data);
    }
    let mut buf = b"OHDR".to_vec();
    buf.push(2);
    buf.push(1); // size of the first chunk in two bytes
    buf.extend_from_slice(&(body.len() as u16).to_le_bytes());
    buf.extend_from_slice(&body);
    let sum = jenkins_lookup3(&buf);
    buf.extend_from_slice(&sum.to_le_bytes());
    buf
}

fn link(name: &str, address: u64) -> Vec<u8> {
    LinkMessage {
        name: name.to_string(),
        link_target: LinkTarget::Hard { object_header_address: address },
        creation_order: None,
        charset: CharacterSet::Ascii,
    }
    .serialize(8)
}

fn info(heap: u64, tree: u64) -> Vec<u8> {
    let mut data = vec![0u8, 0];
    data.extend_from_slice(&heap.to_le_bytes());
    data.extend_from_slice(&tree.to_le_bytes());
    data
}

fn put(file: &mut [u8], at: usize, bytes: &[u8]) {
    file[at..at + bytes.len()].copy_from_slice(bytes);
}

/// A file with `/sensors/humidity`, a data set of three integers.
fn file_with_groups() -> Vec<u8> {
    let mut file = vec![0u8; 2048];
    put(&mut file, 0, &superblock(256).serialize());
    let root = object_header(&[(2, info(UNDEFINED, UNDEFINED)), (6, link("sensors", 512))]);
    put(&mut file, 256, &root);
    let group = object_header(&[(6, link("temperature", 9999)), (6, link("humidity", 768))]);
    put(&mut file, 512, &group);
    let space = Dataspace::parse(&[2, 1, 0, 1, 3, 0, 0, 0, 0, 0, 0, 0], 8).unwrap();
    let mut layout = vec![3u8, 1];
    layout.extend_from_slice(&1024u64.to_le_bytes());
    layout.extend_from_slice(&12u64.to_le_bytes());
    let dataset = object_header(&[
        (1, space.serialize(8)),
        (3, Datatype::i32_le().serialize()),
        (8, layout),
    ]);
    put(&mut file, 768, &dataset);
    for (k, v) in [45i32, 50, 55].iter().enumerate() {
        put(&mut file, 1024 + 4 * k, &v.to_le_bytes());
    }
    file
}

fn message(header: &ObjectHeader, kind: u16) -> Vec<u8> {
    header.messages.iter().find(|m| m.msg_type.to_u16() == kind).unwrap().data.clone()
}

#[test]
fn dataset_by_path() {
    let file = file_with_groups();
    let sb = Superblock::parse(&file, find_signature(&file).unwrap()).unwrap();
    assert_eq!(sb.root_group_address, 256);
    assert_eq!(resolve_path_any(&file, &sb, "/").unwrap(), 256);
    assert_eq!(resolve_path_any(&file, &sb, "sensors").unwrap(), 512);
    let address = resolve_path_any(&file, &sb, "/sensors//humidity").unwrap();
    assert_eq!(address, 768);
    let header = ObjectHeader::parse(&file, address as usize, 8, 8).unwrap();
    let (datatype, _) = Datatype::parse(&message(&header, 3)).unwrap();
    let space = Dataspace::parse(&message(&header, 1), 8).unwrap();
    let layout = DataLayout::parse(&message(&header, 8), 8, 8).unwrap();
    let raw = read_raw_data(&file, &layout, &space, &datatype).unwrap();
    assert_eq!(read_as_i32(&raw, &datatype).unwrap(), vec![45, 50, 55]);
}

#[test]
fn path_not_found_v2() {
    let file = file_with_groups();
    let sb = Superblock::parse(&file, find_signature(&file).unwrap()).unwrap();
    let err = resolve_path_any(&file, &sb, "nonexistent").unwrap_err();
    assert!(matches!(err, FormatError::PathNotFound(_)));
    let err = resolve_path_any(&file, &sb, "sensors/humidity/x").unwrap_err();
    assert_eq!(err, FormatError::PathNotFound("object header is not a group".to_string()));
}

#[test]
fn signature_offsets() {
    assert_eq!(find_signature(&[]), Err(FormatError::SignatureNotFound));
    assert_eq!(find_signature(&HDF5_SIGNATURE), Ok(0));
    for at in [512usize, 1024, 2048] {
        let mut file = vec![0u8; at + 8];
        put(&mut file, at, &HDF5_SIGNATURE);
        assert_eq!(find_signature(&file), Ok(at));
    }
    // 1536 is no valid offset
    let mut file = vec![0u8; 4096];
    put(&mut file, 1536, &HDF5_SIGNATURE);
    assert_eq!(find_signature(&file), Err(FormatError::SignatureNotFound));
}

/// A fractal heap header.
fn heap_header(root: u64, rows: u16, max_direct: u64) -> Vec<u8> {
    let mut buf = b"FRHP".to_vec();
    buf.push(0); // version
    buf.extend_from_slice(&8u16.to_le_bytes()); // heap ID length
    buf.extend_from_slice(&0u16.to_le_bytes()); // no filters
    buf.push(0); // flags
    buf.extend_from_slice(&200u32.to_le_bytes()); // max size of managed objects
    buf.extend_from_slice(&[0u8; 8]); // next huge ID
    buf.extend_from_slice(&UNDEFINED.to_le_bytes()); // huge objects
    buf.extend_from_slice(&[0u8; 8]); // free space
    buf.extend_from_slice(&UNDEFINED.to_le_bytes()); // free space manager
    buf.extend_from_slice(&[0u8; 64]); // sizes and counts
    buf.extend_from_slice(&2u16.to_le_bytes()); // table width
    buf.extend_from_slice(&64u64.to_le_bytes()); // starting block size
    buf.extend_from_slice(&max_direct.to_le_bytes()); // max direct block size
    buf.extend_from_slice(&32u16.to_le_bytes()); // max heap size
    buf.extend_from_slice(&0u16.to_le_bytes()); // starting rows
    buf.extend_from_slice(&root.to_le_bytes());
    buf.extend_from_slice(&rows.to_le_bytes());
    let sum = jenkins_lookup3(&buf);
    buf.extend_from_slice(&sum.to_le_bytes());
    buf
}

/// The ID of a managed object: type, offset, length.
fn heap_id(offset: u32, length: u8) -> Vec<u8> {
    let mut id = vec![0u8];
    id.extend_from_slice(&offset.to_le_bytes());
    id.push(length);
    id.extend_from_slice(&[0, 0]);
    id
}

#[test]
fn heap_with_direct_root() {
    let mut file = vec![0u8; 1024];
    put(&mut file, 0, &heap_header(512, 0, 1024));
    put(&mut file, 512 + 30, b"object");
    let heap = FractalHeapHeader::parse(&file, 0, 8, 8).unwrap();
    assert_eq!(heap.heap_id_length, 8);
    assert_eq!(heap.max_managed_object_size, 200);
    assert_eq!(heap.table_width, 2);
    assert_eq!(heap.starting_block_size, 64);
    assert_eq!(heap.max_direct_block_size, 1024);
    assert_eq!(heap.root_block_address, 512);
    assert_eq!(heap.current_rows, 0);
    assert_eq!(heap.read_managed_object(&file, &heap_id(30, 6), 8).unwrap(), b"object".to_vec());
}

#[test]
fn heap_with_indirect_root() {
    let mut file = vec![0u8; 2048];
    put(&mut file, 0, &heap_header(256, 3, 1024));
    // an indirect block with three rows of two blocks: 64, 64 and 128 bytes each
    put(&mut file, 256, b"FHIB");
    let entries = 256 + 5 + 8 + 4;
    for (k, address) in [600u64, 700, 800, 900, 1000, UNDEFINED].iter().enumerate() {
        put(&mut file, entries + 8 * k, &address.to_le_bytes());
    }
    put(&mut file, 710, b"second");
    put(&mut file, 1100, b"fifth");
    let heap = FractalHeapHeader::parse(&file, 0, 8, 8).unwrap();
    assert_eq!(heap.read_managed_object(&file, &heap_id(64 + 10, 6), 8).unwrap(), b"second");
    assert_eq!(heap.read_managed_object(&file, &heap_id(256 + 100, 5), 8).unwrap(), b"fifth");
    let err = heap.read_managed_object(&file, &heap_id(256 + 128, 1), 8).unwrap_err();
    assert_eq!(err, FormatError::NoDataAllocated);
    let err = heap.read_managed_object(&file, &heap_id(5000, 1), 8).unwrap_err();
    assert_eq!(err, FormatError::NoDataAllocated);
}

#[test]
fn heap_errors() {
    let mut file = vec![0u8; 1024];
    put(&mut file, 0, &heap_header(512, 0, 1024));
    let heap = FractalHeapHeader::parse(&file, 0, 8, 8).unwrap();
    let mut id = heap_id(0, 1);
    id[0] = 0x10;
    assert_eq!(
        heap.read_managed_object(&file, &id, 8).unwrap_err(),
        FormatError::InvalidHeapIdType(1)
    );
    let filtered = FractalHeapHeader { io_filter_encoded_length: 4, ..heap };
    assert_eq!(
        filtered.read_managed_object(&file, &heap_id(0, 1), 8).unwrap_err(),
        FormatError::FilterError("filtered fractal heap".to_string())
    );
    let mut damaged = file.clone();
    damaged[4] = 1;
    assert_eq!(
        FractalHeapHeader::parse(&damaged, 0, 8, 8).unwrap_err(),
        FormatError::InvalidFractalHeapVersion(1)
    );
    damaged[0] = 0;
    assert_eq!(
        FractalHeapHeader::parse(&damaged, 0, 8, 8).unwrap_err(),
        FormatError::InvalidFractalHeapSignature
    );
    let mut damaged = file.clone();
    damaged[6] = 1;
    assert!(matches!(
        FractalHeapHeader::parse(&damaged, 0, 8, 8).unwrap_err(),
        FormatError::ChecksumMismatch { .. }
    ));
}

/// A B-tree of version 2 with a single leaf.
fn tree(kind: u8, records: &[Vec<u8>], at: usize) -> Vec<(usize, Vec<u8>)> {
    let leaf_at = at + 64;
    let mut header = b"BTHD".to_vec();
    header.push(0);
    header.push(kind);
    header.extend_from_slice(&512u32.to_le_bytes());
    header.extend_from_slice(&(records[0].len() as u16).to_le_bytes());
    header.extend_from_slice(&0u16.to_le_bytes());
    header.push(85);
    header.push(40);
    header.extend_from_slice(&(leaf_at as u64).to_le_bytes());
    header.extend_from_slice(&(records.len() as u16).to_le_bytes());
    header.extend_from_slice(&(records.len() as u64).to_le_bytes());
    let sum = jenkins_lookup3(&header);
    header.extend_from_slice(&sum.to_le_bytes());
    let mut leaf = b"BTLF".to_vec();
    leaf.push(0);
    leaf.push(kind);
    for r in records {
        leaf.extend_from_slice(r);
    }
    let sum = jenkins_lookup3(&leaf);
    leaf.extend_from_slice(&sum.to_le_bytes());
    vec![(at, header), (leaf_at, leaf)]
}

#[test]
fn dense_group_by_path() {
    let mut file = vec![0u8; 4096];
    put(&mut file, 0, &superblock(256).serialize());
    put(&mut file, 256, &object_header(&[(2, info(512, 1024))]));
    put(&mut file, 512, &heap_header(2048, 0, 1024));
    let links = [link("alpha", 0x111), link("beta", 0x222)];
    let mut records = Vec::new();
    let mut offset = 20usize;
    for l in &links {
        put(&mut file, 2048 + offset, l);
        let mut record = jenkins_lookup3(b"name").to_le_bytes().to_vec();
        record.extend_from_slice(&heap_id(offset as u32, l.len() as u8));
        records.push(record);
        offset += l.len();
    }
    for (at, bytes) in tree(5, &records, 1024) {
        put(&mut file, at, &bytes);
    }
    let sb = Superblock::parse(&file, 0).unwrap();
    assert_eq!(resolve_path_any(&file, &sb, "beta").unwrap(), 0x222);
    assert_eq!(resolve_path_any(&file, &sb, "alpha").unwrap(), 0x111);
    assert_eq!(
        resolve_path_any(&file, &sb, "gamma").unwrap_err(),
        FormatError::PathNotFound("gamma".to_string())
    );
}

#[test]
fn dense_attributes() {
    let mut file = vec![0u8; 4096];
    let compact = build_attr_message("compact", &AttrValue::I64(1)).serialize(8);
    let dense = build_attr_message("dense", &AttrValue::I64(-2)).serialize_v3(8);
    put(&mut file, 512, &heap_header(2048, 0, 1024));
    put(&mut file, 2048 + 7, &dense);
    let mut record = heap_id(7, dense.len() as u8);
    record.extend_from_slice(&[0; 9]);
    for (at, bytes) in tree(8, &[record], 1024) {
        put(&mut file, at, &bytes);
    }
    put(&mut file, 0, &object_header(&[(12, compact), (21, info(512, 1024))]));
    let header = ObjectHeader::parse(&file, 0, 8, 8).unwrap();
    let attrs: Vec<AttributeMessage> = extract_attributes_full(&file, &header, 8, 8).unwrap();
    assert_eq!(attrs.len(), 2);
    assert_eq!(find_attribute(&attrs, "compact").unwrap().read_as_i64().unwrap(), vec![1]);
    assert_eq!(find_attribute(&attrs, "dense").unwrap().read_as_i64().unwrap(), vec![-2]);
    assert!(find_attribute(&attrs, "other").is_none());
}

/// A global heap collection with two objects, and an element that points into it.
fn heap_collection() -> Vec<u8> {
    let mut buf = b"GCOL".to_vec();
    buf.push(1);
    buf.extend_from_slice(&[0; 3]);
    buf.extend_from_slice(&4096u64.to_le_bytes());
    for (index, text) in [(1u16, "first"), (2, "second")] {
        buf.extend_from_slice(&index.to_le_bytes());
        buf.extend_from_slice(&1u16.to_le_bytes());
        buf.extend_from_slice(&[0; 4]);
        buf.extend_from_slice(&(text.len() as u64).to_le_bytes());
        let mut data = text.as_bytes().to_vec();
        data.resize(8, 0);
        buf.extend_from_slice(&data);
    }
    buf.resize(4096, 0);
    buf
}

fn vl_element(length: u32, address: u64, index: u32) -> Vec<u8> {
    let mut e = length.to_le_bytes().to_vec();
    e.extend_from_slice(&address.to_le_bytes());
    e.extend_from_slice(&index.to_le_bytes());
    e
}

#[test]
fn variable_length_strings() {
    let mut file = vec![0u8; 64];
    file.extend_from_slice(&heap_collection());
    let mut raw = vl_element(6, 64, 2);
    raw.extend_from_slice(&vl_element(0, 0, 0));
    raw.extend_from_slice(&vl_element(3, 64, 1));
    assert_eq!(read_vl_strings(&file, &raw, 3, 8, 8).unwrap(), vec!["second", "", "fir"]);
    assert_eq!(
        read_vl_strings(&file, &vl_element(1, 64, 7), 1, 8, 8).unwrap_err(),
        FormatError::GlobalHeapObjectNotFound { collection_address: 64, index: 7 }
    );
    assert_eq!(
        read_vl_strings(&file, &raw[..10], 1, 8, 8).unwrap_err(),
        FormatError::VlDataError("variable-length data is too short".to_string())
    );
}

#[test]
fn shared_messages_in_a_tree() {
    let mut in_heap = vec![0u8];
    in_heap.extend_from_slice(&0xABCDu32.to_le_bytes());
    in_heap.extend_from_slice(&[1, 2, 3, 4, 5, 6, 7, 8]);
    in_heap.extend_from_slice(&9u32.to_le_bytes());
    let mut in_header = vec![1u8];
    in_header.extend_from_slice(&7u32.to_le_bytes());
    in_header.extend_from_slice(&3u16.to_le_bytes());
    in_header.extend_from_slice(&0x500u64.to_le_bytes());
    in_header.extend_from_slice(&[0, 0]);
    let mut file = vec![0u8; 512];
    for (at, bytes) in tree(7, &[in_heap, in_header], 0) {
        put(&mut file, at, &bytes);
    }
    let entries = parse_sohm_btree_entries(&file, 0, 8, 8).unwrap();
    assert_eq!(entries.len(), 2);
    assert_eq!(entries[0].hash, 0xABCD);
    assert_eq!(entries[0].heap_id, Some([1, 2, 3, 4, 5, 6, 7, 8]));
    assert_eq!(entries[0].ref_count, Some(9));
    assert_eq!(entries[0].oh_addr, None);
    assert_eq!(entries[1].location, 1);
    assert_eq!(entries[1].mesg_index, Some(3));
    assert_eq!(entries[1].oh_addr, Some(0x500));
    assert_eq!(entries[1].heap_id, None);
}

#[test]
fn cached_raw_data() {
    let file = file_with_groups();
    let space = Dataspace::parse(&[2, 1, 0, 1, 3, 0, 0, 0, 0, 0, 0, 0], 8).unwrap();
    let layout = DataLayout::Contiguous { address: Some(1024), size: 12 };
    let t = Datatype::i32_le();
    let mut cache = ChunkCache::new();
    let raw =
        read_raw_data_cached(&file, &layout, &space, &t, None, 8, 8, &mut cache).unwrap();
    assert_eq!(read_as_i32(&raw, &t).unwrap(), vec![45, 50, 55]);
    assert_eq!(cache.cached_chunk_count(), 0);
    let none = DataLayout::Contiguous { address: None, size: 0 };
    assert_eq!(
        read_raw_data_cached(&file, &none, &space, &t, None, 8, 8, &mut cache).unwrap_err(),
        FormatError::NoDataAllocated
    );
}

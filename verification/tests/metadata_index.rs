//! Tests of the module `metadata_index`.

use rustyhdf5_format::chunked_write::ChunkOptions;
use rustyhdf5_format::datatype::Datatype;
use rustyhdf5_format::error::FormatError;
use rustyhdf5_format::metadata_index::{
    CreationMode, DatasetMetadata, MetadataBlock, MetadataIndex, build_dataset_metadata,
};

fn sample_meta(name: &str) -> DatasetMetadata {
    build_dataset_metadata(
        name,
        Datatype::f64_le(),
        vec![3],
        vec![0u8; 24],
        ChunkOptions::default(),
        None,
        vec![],
    )
}

#[test]
fn collective_mode_basic() {
    let ds = vec![sample_meta("a"), sample_meta("b")];
    let idx = MetadataIndex::from_collective(ds).unwrap();
    assert_eq!(idx.len(), 2);
    assert_eq!(idx.mode, CreationMode::Collective);
    assert!(idx.find("a").is_some());
    assert!(idx.find("b").is_some());
    assert!(idx.find("c").is_none());
}

#[test]
fn merge_two_blocks() {
    let mut b0 = MetadataBlock::new(0);
    b0.add_dataset(sample_meta("ds_a"));
    b0.add_dataset(sample_meta("ds_c"));

    let mut b1 = MetadataBlock::new(1);
    b1.add_dataset(sample_meta("ds_b"));

    let idx = MetadataIndex::merge_blocks(&[b0, b1]).unwrap();
    assert_eq!(idx.len(), 3);
    assert_eq!(idx.entries[0].name, "ds_a");
    assert_eq!(idx.entries[1].name, "ds_b");
    assert_eq!(idx.entries[2].name, "ds_c");
}

#[test]
fn merge_detects_duplicates() {
    let mut b0 = MetadataBlock::new(0);
    b0.add_dataset(sample_meta("shared_name"));

    let mut b1 = MetadataBlock::new(1);
    b1.add_dataset(sample_meta("shared_name"));

    let err = MetadataIndex::merge_blocks(&[b0, b1]).unwrap_err();
    assert!(matches!(err, FormatError::DuplicateDatasetName(ref n) if n == "shared_name"));
}

#[test]
fn empty_merge() {
    let idx = MetadataIndex::merge_blocks(&[]).unwrap();
    assert!(idx.is_empty());
}

#[test]
fn single_block_merge() {
    let mut b = MetadataBlock::new(0);
    b.add_dataset(sample_meta("only"));
    let idx = MetadataIndex::merge_blocks(&[b]).unwrap();
    assert_eq!(idx.len(), 1);
    assert_eq!(idx.find("only").unwrap().name, "only");
}

#[test]
fn collective_index_is_sorted() {
    let ds = vec![sample_meta("c"), sample_meta("a"), sample_meta("b")];
    let idx = MetadataIndex::from_collective(ds).unwrap();
    let names: Vec<&str> = idx.entries.iter().map(|e| e.name.as_str()).collect();
    assert_eq!(names, vec!["a", "b", "c"]);
    for (i, e) in idx.entries.iter().enumerate() {
        assert_eq!(e.dataset_index, i);
        assert_eq!(e.source_block, 0);
        assert_eq!(idx.datasets[i].name, e.name);
    }
}

#[test]
fn collective_index_detects_duplicates() {
    let ds = vec![sample_meta("a"), sample_meta("b"), sample_meta("a")];
    let err = MetadataIndex::from_collective(ds).unwrap_err();
    assert_eq!(err, FormatError::DuplicateDatasetName("a".to_string()));
}

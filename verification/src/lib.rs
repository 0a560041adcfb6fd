//! HDF5 binary format structures: parsing, serialization and chunked storage.
//!
//! Every function says in its contract what it returns, over the content of the bytes it reads: for
//! each structure of the format a spec function gives what stands at a position of a file,
//! and a parser returns just that, or the error that the spec function gives. What is written is
//! read back: `round_trip`, `write_read` and `value_round_trip` hold the laws that span modules.

pub mod access_order;
pub mod array_pages;
pub mod attribute;
pub mod attribute_info;
pub mod btree_v1;
pub mod btree_v2;
pub mod bytes;
pub mod checksum;
pub mod chunk_cache;
pub mod chunk_contents;
pub mod chunk_places;
pub mod chunk_tree;
pub mod chunked_read;
pub mod chunked_write;
pub mod data_layout;
pub mod data_read;
pub mod dataset_lists;
pub mod dataspace;
pub mod datatype;
pub mod datatype_versions;
pub mod early_formats;
pub mod element_values;
pub mod error;
pub mod extensible_array;
pub mod file_heads;
pub mod filter_messages;
pub mod filter_pipeline;
pub mod filters;
pub mod filtered_bytes;
pub mod fixed_array;
pub mod fractal_heap;
pub mod global_heap;
pub mod global_objects;
pub mod grid;
pub mod group_info;
pub mod group_tree;
pub mod group_v1;
pub mod group_v2;
pub mod h5type;
pub mod header_blocks;
pub mod header_chunks;
pub mod heap_blocks;
pub mod index_blocks;
pub mod index_slots;
pub mod info_messages;
pub mod lane_partition;
pub mod link_forms;
pub mod link_info;
pub mod link_message;
pub mod listings;
pub mod local_heap;
pub mod message_type;
pub mod metadata_index;
pub mod object_header;
pub mod parallel_read;
pub mod paths;
pub mod places;
pub mod plain_types;
pub mod record_tree;
pub mod record_values;
pub mod refusals;
pub mod refused_data;
pub mod round_trip;
pub mod shared_message;
pub mod shared_tables;
pub mod signature;
pub mod stored_elements;
pub mod superblock;
pub mod sweep;
pub mod symbol_table;
pub mod text;
pub mod traversal;
pub mod type_builders;
pub mod utils;
pub mod value_round_trip;
pub mod vl_data;
pub mod write_read;
pub mod written_index;

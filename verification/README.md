# rustyhdf5-format

The binary format of HDF5 files in verified Rust: superblocks, object headers, datatypes, data
spaces, layouts, filters, attributes, links, heaps, B-trees, chunk indexes, and the reading and
writing of chunked data. The library in `src/` is verified with Verus; `app/` is ordinary Rust
around it.

## Contracts

For every structure a spec function gives what stands at a position of a file, as a mathematical
value or as the error with which reading it fails. A parser ensures that its result is just that:
`outcome(r) == header_at(d, p, ..)`. A serializer ensures the bytes. The `..Model` types are the
contents of the executable types, with sequences for vectors and texts; `deep_view()` gives them.

A `requires` leaves out what cannot be computed: sizes and counts that do not fit in the machine
word, extents of zero, elements that are too wide. Other damage is an error. Some of these sizes and
counts stand in the file: those of chunk indexes and of the chunks that they list. For a file of
which nothing is known, `read_raw_data_checked`, `read_chunked_data_checked` and
`read_chunked_data_cached_checked` test them and then read, or give `None`; `can_read_chunked_data`,
`can_list_implicit`, `can_read_fixed_array` and `can_read_extensible_array` are the tests.

## Laws

| Law | Module |
| --- | --- |
| What is written in chunks is read back through its layout message and its index: through a Fixed Array up to 1024 chunks, those of one page; through an Extensible Array as many as its 29 super blocks have room for | `write_read` |
| The layout message of written data says its chunks, its element size and its kind of index; there is a pipeline message just where there is a filter | `write_read` |
| A Fixed Array of up to 1024 chunks and an Extensible Array of as many as its super blocks have room for are read back, with addresses of 4 or 8 bytes | `write_read` |
| Assembling chunks undoes splitting; chunks cover the data set | `round_trip` |
| A cached read and a swept read give what a plain read gives | `round_trip` |
| Messages are read back: datatypes, data spaces, superblocks, links, pipelines, attributes | the module of each |
| Values of attributes and data sets are read back | `value_round_trip` |
| Filters, undone, give the data back | `filters` |
| What is put in the cache is got from it, and only eviction removes it | `chunk_cache` |
| A traversal that ends at all is not cut short by the bound on its depth | `traversal` |
| Each chunk belongs to exactly one lane, and the lanes are balanced | `lane_partition` |
| Every data set that was merged is found by its name | `metadata_index` |
| A shared reference stands for the first message of its type that is not itself shared | `shared_message` |
| A parsed object header keeps no NIL message, and its fields are there as its version and flags say | `object_header` |
| An attribute is read back where its datatype and its data space are | `attribute` |
| The signature is found at the first valid offset | `signature` |
| The values of a struct, laid out as its compound type says, are read back | `h5type` |

## What is trusted

Ten small functions call code that Verus does not read: `byteorder` (three integer decodings),
`flate2` (a zlib encoder and decoder), `rayon` (a parallel map), and `std` (the length of a slice,
the address of a slice, the decoding of UTF-8). Each has a contract and says what it claims.

## Layout

- `src/`: the library, one module for each structure of the format. `bytes`, `text`, `utils` and
  `grid` are shared by all.
- `tests/`: tests of each module, and of whole files that are put together there.
- `app/`: floating-point values, the error as a `std::error::Error`, a cache behind a lock, the
  number of lanes of the machine, and the code that `#[derive(H5Type)]` generates.

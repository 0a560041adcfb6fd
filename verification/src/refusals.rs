//! What is refused: structures without their signature, of an unknown version, or with a wrong
//! checksum.

use vstd::prelude::*;
use crate::attribute;
use crate::attribute_info;
use crate::btree_v1;
use crate::btree_v2::{self, InternalNode};
use crate::bytes;
use crate::checksum;
use crate::chunked_read;
use crate::data_layout;
use crate::dataspace;
use crate::datatype;
use crate::error::{ErrorModel, FormatError};
use crate::extensible_array::{self, ExtensibleArrayHeader};
use crate::filter_pipeline;
use crate::fixed_array::{self, ChunkGrid, FixedArrayHeader};
use crate::fractal_heap::{self, FractalHeapHeader};
use crate::global_heap;
use crate::group_info;
use crate::link_info;
use crate::link_message;
use crate::local_heap;
use crate::object_header;
use crate::places;
use crate::shared_message;
use crate::superblock;
use crate::symbol_table;

verus! {

/// An error without a text.
pub open spec fn refused<A>(r: Result<A, ErrorModel>, e: FormatError) -> bool {
    r == Err::<A, ErrorModel>(ErrorModel::Plain(e))
}

proof fn lemma_tagged(d: Seq<u8>, p: int, tag: Seq<u8>)
    requires
        0 <= p,
        p + 4 <= d.len(),
        tag.len() == 4,
    ensures
        bytes::has_tag(d, p, tag) <==> places::stands(d, p, tag),
{
}

/// The nodes of trees, the heaps of early groups and the nodes of symbol tables start with their
/// signatures, `TREE`, `HEAP` and `SNOD`. Where something else stands there is an error that says
/// so.
pub proof fn law_signatures_of_early_groups(d: Seq<u8>, p: int, ndims: int, os: u8, ls: u8)
    requires
        0 <= p,
        p + 8 + 2 * os + 2 * ls <= d.len(),
    ensures
        !places::stands(d, p, seq![0x54u8, 0x52, 0x45, 0x45]) ==> {
            &&& refused(btree_v1::node_at(d, p, os), FormatError::InvalidBTreeSignature)
            &&& chunked_read::node_error(d, p, ndims, os) == Some(
                ErrorModel::Plain(FormatError::InvalidBTreeSignature),
            )
        },
        !places::stands(d, p, seq![0x48u8, 0x45, 0x41, 0x50]) ==> refused(
            local_heap::heap_at(d, p, os, ls),
            FormatError::InvalidLocalHeapSignature,
        ),
        !places::stands(d, p, seq![0x53u8, 0x4E, 0x4F, 0x44]) ==> refused(
            symbol_table::entries_of(d, p, os),
            FormatError::InvalidSymbolTableNodeSignature,
        ),
{
    lemma_tagged(d, p, seq![0x54u8, 0x52, 0x45, 0x45]);
    lemma_tagged(d, p, seq![0x48u8, 0x45, 0x41, 0x50]);
    lemma_tagged(d, p, seq![0x53u8, 0x4E, 0x4F, 0x44]);
}

/// Trees of records start with `BTHD`, their leaves with `BTLF` and their inner nodes with `BTIN`.
/// Where something else stands there is an error that says so.
pub proof fn law_signatures_of_record_trees(
    d: Seq<u8>,
    p: int,
    n: int,
    rs: int,
    node: InternalNode,
    os: u8,
    ls: u8,
)
    requires
        0 <= p,
        p + 6 <= d.len(),
        node.p == p,
    ensures
        !places::stands(d, p, seq![0x42u8, 0x54, 0x48, 0x44]) ==> refused(
            btree_v2::header_at(d, p, os, ls),
            FormatError::InvalidBTreeV2Signature,
        ),
        !places::stands(d, p, seq![0x42u8, 0x54, 0x4C, 0x46]) ==> refused(
            btree_v2::leaf_records(d, p, n, rs),
            FormatError::InvalidBTreeV2Signature,
        ),
        !places::stands(d, p, seq![0x42u8, 0x54, 0x49, 0x4E]) ==> refused(
            node.records(d),
            FormatError::InvalidBTreeV2Signature,
        ),
{
    lemma_tagged(d, p, seq![0x42u8, 0x54, 0x48, 0x44]);
    lemma_tagged(d, p, seq![0x42u8, 0x54, 0x4C, 0x46]);
    lemma_tagged(d, p, seq![0x42u8, 0x54, 0x49, 0x4E]);
}

/// Fractal heaps start with `FRHP`, their indirect blocks with `FHIB`, and collections of global
/// objects with `GCOL`. Where something else stands there is an error that says so.
pub proof fn law_signatures_of_heaps(
    d: Seq<u8>,
    p: int,
    h: FractalHeapHeader,
    rows: int,
    offset: int,
    os: u8,
    ls: u8,
)
    requires
        0 <= p,
        p + 22 + 12 * ls + 3 * os <= d.len(),
        p + 5 + os + h.offset_width() <= d.len(),
    ensures
        !places::stands(d, p, seq![0x46u8, 0x52, 0x48, 0x50]) ==> refused(
            fractal_heap::header_at(d, p, os, ls),
            FormatError::InvalidFractalHeapSignature,
        ),
        !places::stands(d, p, seq![0x46u8, 0x48, 0x49, 0x42]) ==> refused(
            h.position_below(d, p, rows, offset, os),
            FormatError::InvalidFractalHeapSignature,
        ),
        !places::stands(d, p, seq![0x47u8, 0x43, 0x4F, 0x4C]) ==> refused(
            global_heap::collection_at(d, p, ls),
            FormatError::InvalidGlobalHeapSignature,
        ),
{
    lemma_tagged(d, p, seq![0x46u8, 0x52, 0x48, 0x50]);
    lemma_tagged(d, p, seq![0x46u8, 0x48, 0x49, 0x42]);
    lemma_tagged(d, p, seq![0x47u8, 0x43, 0x4F, 0x4C]);
}

/// Tables of shared messages start with `SMTB`, and lists of them with `SMLI`. Where something else
/// stands there is an error that says so.
pub proof fn law_signatures_of_shared_tables(d: Seq<u8>, p: int, n: int, os: u8)
    requires
        0 <= p,
        p + 4 <= d.len(),
    ensures
        !places::stands(d, p, seq![0x53u8, 0x4D, 0x54, 0x42]) ==> refused(
            shared_message::table_at(d, p, n, os),
            FormatError::InvalidSohmTableSignature,
        ),
        !places::stands(d, p, seq![0x53u8, 0x4D, 0x4C, 0x49]) ==> refused(
            shared_message::list_at(d, p, n, os),
            FormatError::InvalidSohmListSignature,
        ),
{
    lemma_tagged(d, p, seq![0x53u8, 0x4D, 0x54, 0x42]);
    lemma_tagged(d, p, seq![0x53u8, 0x4D, 0x4C, 0x49]);
}

/// What is read from a fixed array starts with the signatures of its parts: `FAHD` for the header
/// and `FADB` for the data block.
pub proof fn law_signatures_of_fixed_arrays(
    d: Seq<u8>,
    p: int,
    h: FixedArrayHeader,
    dims: Seq<u64>,
    chunk: Seq<u32>,
    size: u32,
    os: u8,
    ls: u8,
)
    requires
        0 <= p <= usize::MAX,
        h.data_block_address == p,
    ensures
        fixed_array::fixed_array_at(d, p, os, ls) is Ok ==> places::stands(
            d,
            p,
            seq![0x46u8, 0x41, 0x48, 0x44],
        ),
        fixed_array::fixed_chunks(d, h, dims, chunk, size, os) is Ok ==> places::stands(
            d,
            p,
            seq![0x46u8, 0x41, 0x44, 0x42],
        ),
{
    if p + 4 <= d.len() {
        lemma_tagged(d, p, seq![0x46u8, 0x41, 0x48, 0x44]);
        lemma_tagged(d, p, seq![0x46u8, 0x41, 0x44, 0x42]);
        assert(fixed_array::fahd() == seq![0x46u8, 0x41, 0x48, 0x44]);
        assert(fixed_array::fadb() == seq![0x46u8, 0x41, 0x44, 0x42]);
    }
}

proof fn lemma_extensible_header(d: Seq<u8>, p: int, os: u8, ls: u8)
    requires
        0 <= p,
        !bytes::has_tag(d, p, extensible_array::eahd()) || p + 4 > d.len(),
    ensures
        extensible_array::extensible_array_at(d, p, os, ls) is Err,
{
}

proof fn lemma_index_block(
    d: Seq<u8>,
    p: int,
    h: ExtensibleArrayHeader,
    dims: Seq<u64>,
    chunk: Seq<u32>,
    size: u32,
    os: u8,
)
    requires
        0 <= p <= usize::MAX,
        h.index_block_address == p,
        !bytes::has_tag(d, p, extensible_array::eaib()) || p + 4 > d.len(),
    ensures
        extensible_array::extensible_chunks(d, h, dims, chunk, size, os) is Err,
{
}

proof fn lemma_data_block(
    d: Seq<u8>,
    p: int,
    n: int,
    h: ExtensibleArrayHeader,
    os: u8,
    g: ChunkGrid,
    index: int,
)
    requires
        0 <= p,
        !bytes::has_tag(d, p, extensible_array::eadb()) || p + 4 > d.len(),
    ensures
        extensible_array::ea_block_at(d, p, n, h, os, g, index) is Err,
{
}

proof fn lemma_super_block(
    d: Seq<u8>,
    p: int,
    n: usize,
    m: usize,
    h: ExtensibleArrayHeader,
    os: u8,
    g: ChunkGrid,
    index: int,
)
    requires
        0 <= p,
        !bytes::has_tag(d, p, extensible_array::easb()) || p + 4 > d.len(),
    ensures
        extensible_array::ea_super_at(d, p, n, m, h, os, g, index) is Err,
{
}

/// The header of an extensible array starts with `EAHD`, its index block with `EAIB`, a data block
/// with `EADB` and a super block with `EASB`. What does not is refused.
pub proof fn law_signatures_of_extensible_arrays(
    d: Seq<u8>,
    p: int,
    h: ExtensibleArrayHeader,
    dims: Seq<u64>,
    chunk: Seq<u32>,
    size: u32,
    g: ChunkGrid,
    n: usize,
    m: usize,
    index: int,
    os: u8,
    ls: u8,
)
    requires
        0 <= p <= usize::MAX,
        h.index_block_address == p,
    ensures
        !places::stands(d, p, seq![0x45u8, 0x41, 0x48, 0x44])
            ==> extensible_array::extensible_array_at(d, p, os, ls) is Err,
        !places::stands(d, p, seq![0x45u8, 0x41, 0x49, 0x42])
            ==> extensible_array::extensible_chunks(d, h, dims, chunk, size, os) is Err,
        !places::stands(d, p, seq![0x45u8, 0x41, 0x44, 0x42]) ==> extensible_array::ea_block_at(
            d,
            p,
            n as int,
            h,
            os,
            g,
            index,
        ) is Err,
        !places::stands(d, p, seq![0x45u8, 0x41, 0x53, 0x42]) ==> extensible_array::ea_super_at(
            d,
            p,
            n,
            m,
            h,
            os,
            g,
            index,
        ) is Err,
{
    let t1 = seq![0x45u8, 0x41, 0x48, 0x44];
    let t2 = seq![0x45u8, 0x41, 0x49, 0x42];
    let t3 = seq![0x45u8, 0x41, 0x44, 0x42];
    let t4 = seq![0x45u8, 0x41, 0x53, 0x42];
    assert(extensible_array::eahd() == t1);
    assert(extensible_array::eaib() == t2);
    assert(extensible_array::eadb() == t3);
    assert(extensible_array::easb() == t4);
    if p + 4 <= d.len() {
        lemma_tagged(d, p, t1);
        lemma_tagged(d, p, t2);
        lemma_tagged(d, p, t3);
        lemma_tagged(d, p, t4);
    }
    if !places::stands(d, p, t1) {
        lemma_extensible_header(d, p, os, ls);
    }
    if !places::stands(d, p, t2) {
        lemma_index_block(d, p, h, dims, chunk, size, os);
    }
    if !places::stands(d, p, t3) {
        lemma_data_block(d, p, n as int, h, os, g, index);
    }
    if !places::stands(d, p, t4) {
        lemma_super_block(d, p, n, m, h, os, g, index);
    }
}

/// The parts of early groups are of a known version. Others are refused with their version.
pub proof fn law_versions_of_early_groups(d: Seq<u8>, p: int, os: u8, ls: u8)
    requires
        0 <= p,
        p + 8 + 2 * ls + os <= d.len(),
    ensures
        places::stands(d, p, seq![0x48u8, 0x45, 0x41, 0x50]) && d[p + 4] != 0 ==> refused(
            local_heap::heap_at(d, p, os, ls),
            FormatError::InvalidLocalHeapVersion(d[p + 4]),
        ),
        places::stands(d, p, seq![0x53u8, 0x4E, 0x4F, 0x44]) && d[p + 4] != 1 ==> refused(
            symbol_table::entries_of(d, p, os),
            FormatError::InvalidSymbolTableNodeVersion(d[p + 4]),
        ),
{
}

/// Heaps and trees of records are of a known version. Others are refused with their version.
#[verifier::spinoff_prover]
#[verifier::rlimit(30)]
pub proof fn law_versions_of_heaps(d: Seq<u8>, p: int, os: u8, ls: u8)
    requires
        0 <= p,
        p + 22 + 12 * ls + 3 * os <= d.len(),
    ensures
        places::stands(d, p, seq![0x42u8, 0x54, 0x48, 0x44]) && d[p + 4] != 0 ==> refused(
            btree_v2::header_at(d, p, os, ls),
            FormatError::InvalidBTreeV2Version(d[p + 4]),
        ),
        places::stands(d, p, seq![0x46u8, 0x52, 0x48, 0x50]) && d[p + 4] != 0 ==> refused(
            fractal_heap::header_at(d, p, os, ls),
            FormatError::InvalidFractalHeapVersion(d[p + 4]),
        ),
        places::stands(d, p, seq![0x47u8, 0x43, 0x4F, 0x4C]) && d[p + 4] != 1 ==> refused(
            global_heap::collection_at(d, p, ls),
            FormatError::InvalidGlobalHeapVersion(d[p + 4]),
        ),
{
}

proof fn lemma_early_header(d: Seq<u8>, p: int, os: u8, ls: u8)
    requires
        0 <= p,
        p + 12 <= d.len(),
        !bytes::has_tag(d, p, object_header::ohdr()),
        d[p] != 1,
    ensures
        refused(
            object_header::header_at(d, p, os, ls),
            FormatError::InvalidObjectHeaderVersion(d[p]),
        ),
{
}

proof fn lemma_late_header(d: Seq<u8>, p: int, os: u8, ls: u8)
    requires
        0 <= p,
        p + 12 <= d.len(),
        bytes::has_tag(d, p, object_header::ohdr()),
        d[p + 4] != 2,
    ensures
        refused(
            object_header::header_at(d, p, os, ls),
            FormatError::InvalidObjectHeaderVersion(d[p + 4]),
        ),
{
}

/// Object headers that start with `OHDR` are of version 2, and all others of version 1. Others are
/// refused with their version.
pub proof fn law_versions_of_object_headers(d: Seq<u8>, p: int, os: u8, ls: u8)
    requires
        0 <= p,
        p + 12 <= d.len(),
    ensures
        places::stands(d, p, seq![0x4Fu8, 0x48, 0x44, 0x52]) && d[p + 4] != 2 ==> refused(
            object_header::header_at(d, p, os, ls),
            FormatError::InvalidObjectHeaderVersion(d[p + 4]),
        ),
        !places::stands(d, p, seq![0x4Fu8, 0x48, 0x44, 0x52]) && d[p] != 1 ==> refused(
            object_header::header_at(d, p, os, ls),
            FormatError::InvalidObjectHeaderVersion(d[p]),
        ),
{
    let tag = seq![0x4Fu8, 0x48, 0x44, 0x52];
    assert(object_header::ohdr() == tag);
    lemma_tagged(d, p, tag);
    if places::stands(d, p, tag) {
        if d[p + 4] != 2 {
            lemma_late_header(d, p, os, ls);
        }
    } else if d[p] != 1 {
        lemma_early_header(d, p, os, ls);
    }
}

/// Messages are of a known version. Others are refused with their version.
pub proof fn law_versions_of_messages(d: Seq<u8>, os: u8, ls: u8)
    requires
        d.len() >= 8,
    ensures
        !(1 <= d[0] <= 3) ==> refused(
            attribute::attribute_of(d, ls),
            FormatError::InvalidAttributeVersion(d[0]),
        ),
        d[0] != 0 ==> refused(
            attribute_info::info_of(d, os),
            FormatError::InvalidAttributeInfoVersion(d[0]),
        ),
        d[0] != 3 && d[0] != 4 ==> refused(
            data_layout::layout_of(d, os, ls),
            FormatError::InvalidLayoutVersion(d[0]),
        ),
        d[0] != 1 && d[0] != 2 ==> refused(
            dataspace::dataspace_of(d, ls),
            FormatError::InvalidDataspaceVersion(d[0]),
        ),
        d[0] != 1 && d[0] != 2 ==> refused(
            filter_pipeline::pipeline_of(d),
            FormatError::InvalidFilterPipelineVersion(d[0]),
        ),
        d[0] != 0 ==> refused(
            group_info::group_info_of(d),
            FormatError::InvalidGroupInfoVersion(d[0]),
        ),
        d[0] != 0 ==> refused(
            link_info::info_of(d, os),
            FormatError::InvalidLinkInfoVersion(d[0]),
        ),
        d[0] != 1 ==> refused(
            link_message::link_of(d, os),
            FormatError::InvalidLinkVersion(d[0]),
        ),
        d[0] != 0 ==> refused(
            shared_message::table_message_of(d, os),
            FormatError::InvalidSohmTableVersion(d[0]),
        ),
        !(1 <= d[0] <= 3) ==> refused(
            shared_message::shared_ref_of(d, os),
            FormatError::InvalidSharedMessageVersion(d[0]),
        ),
{
}

/// There are twelve classes of datatypes. Others are refused, and so are compounds of a version
/// other than 1 to 4 and arrays of a version other than 2 and 3.
pub proof fn law_classes_of_datatypes(d: Seq<u8>)
    requires
        d.len() >= 8,
    ensures
        d[0] % 16 > 11 ==> refused(
            datatype::parsed(d),
            FormatError::InvalidDatatypeClass((d[0] % 16) as u8),
        ),
        d[0] % 16 == 6 && !(1 <= d[0] / 16 <= 4) ==> refused(
            datatype::parsed(d),
            FormatError::InvalidDatatypeVersion { class: 6, version: (d[0] / 16) as u8 },
        ),
        d[0] % 16 == 10 && d[0] / 16 != 2 && d[0] / 16 != 3 ==> refused(
            datatype::parsed(d),
            FormatError::InvalidDatatypeVersion { class: 10, version: (d[0] / 16) as u8 },
        ),
{
}

/// A superblock that does not start with the signature of a file is refused, and so is one of an
/// unknown version.
pub proof fn law_superblocks_are_signed(d: Seq<u8>)
    requires
        d.len() >= 9,
    ensures
        !places::stands(d, 0, crate::early_formats::signature_bytes()) ==> refused(
            superblock::superblock_of(d),
            FormatError::SignatureNotFound,
        ),
        places::stands(d, 0, crate::early_formats::signature_bytes()) && d[8] > 3 ==> refused(
            superblock::superblock_of(d),
            FormatError::UnsupportedVersion(d[8]),
        ),
{
    assert(crate::signature::HDF5_SIGNATURE@ =~= crate::early_formats::signature_bytes());
}

/// A checksum holds only if it is that of the bytes in front of it.
proof fn lemma_checksum(d: Seq<u8>, p: int, end: int)
    requires
        0 <= p <= end,
    ensures
        crate::utils::stored_checksum(d, p, end) is Ok ==> places::stands(
            d,
            end,
            places::field(checksum::lookup3(d.subrange(p, end)) as int, 4),
        ),
{
    if crate::utils::stored_checksum(d, p, end) is Ok {
        let sum = checksum::lookup3(d.subrange(p, end));
        let b = d.subrange(end, end + 4);
        bytes::lemma_le_value_4(b);
        bytes::lemma_le_value_bytes(b);
        assert(bytes::u32_at(d, end) == sum);
        assert(bytes::le_value(b) == sum);
    }
}

/// Whether behind the bytes from `p` to `end` stands their checksum.
pub open spec fn is_sealed(d: Seq<u8>, p: int, end: int) -> bool {
    places::stands(d, end, places::field(checksum::lookup3(d.subrange(p, end)) as int, 4))
}

/// Leaves of trees of records and fractal heaps are read only where their checksum stands behind
/// them.
#[verifier::spinoff_prover]
#[verifier::rlimit(30)]
pub proof fn law_checksums_of_leaves_and_heaps(d: Seq<u8>, p: int, n: int, rs: int, os: u8, ls: u8)
    requires
        0 <= p,
        0 <= n,
        0 <= rs,
    ensures
        btree_v2::leaf_records(d, p, n, rs) is Ok ==> is_sealed(d, p, p + 6 + n * rs),
        fractal_heap::header_at(d, p, os, ls) matches Ok(h) && h.io_filter_encoded_length == 0
            ==> is_sealed(d, p, p + 22 + 12 * ls + 3 * os),
{
    assert(0 <= n * rs) by (nonlinear_arith)
        requires
            0 <= n,
            0 <= rs,
    ;
    lemma_checksum(d, p, p + 6 + n * rs);
    lemma_checksum(d, p, p + 22 + 12 * ls + 3 * os);
}

proof fn lemma_header_end(d: Seq<u8>, p: int, os: u8, ls: u8) -> (end: int)
    requires
        0 <= p,
        object_header::header_v2_at(d, p, os, ls) is Ok,
    ensures
        p + 6 < end,
        crate::utils::stored_checksum(d, p, end) is Ok,
{
    let flags = d[p + 5];
    let s = p + 6 + (if flags / 32 % 2 == 1 {
        16int
    } else {
        0
    }) + (if flags / 16 % 2 == 1 {
        4int
    } else {
        0
    });
    lemma_header_from(d, p, s, os, ls)
}

proof fn lemma_header_from(d: Seq<u8>, p: int, s: int, os: u8, ls: u8) -> (end: int)
    requires
        0 <= p,
        p + 6 <= s,
        object_header::header_v2_from(d, p, s, os, ls) is Ok,
    ensures
        p + 6 < end,
        crate::utils::stored_checksum(d, p, end) is Ok,
{
    let width = object_header::size_width(d[p + 5] % 4);
    s + width + (crate::utils::uint_at(d, s, width) as usize) as int
}

/// Object headers of version 2 are read only where the checksum of all that is in front of it
/// stands behind their messages.
pub proof fn law_checksums_of_object_headers(d: Seq<u8>, p: int, os: u8, ls: u8)
    requires
        0 <= p,
        object_header::header_at(d, p, os, ls) is Ok,
        places::stands(d, p, seq![0x4Fu8, 0x48, 0x44, 0x52]),
    ensures
        exists|end: int| p + 6 < end && #[trigger] is_sealed(d, p, end),
{
    let tag = seq![0x4Fu8, 0x48, 0x44, 0x52];
    assert(object_header::ohdr() == tag);
    lemma_tagged(d, p, tag);
    assert(object_header::header_at(d, p, os, ls) == object_header::header_v2_at(d, p, os, ls));
    let end = lemma_header_end(d, p, os, ls);
    lemma_checksum(d, p, end);
    assert(is_sealed(d, p, end));
}

} // verus!

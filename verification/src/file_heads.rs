//! What is written in late superblocks and data spaces is read from them.

use vstd::prelude::*;
use crate::bytes;
use crate::chunk_tree;
use crate::dataspace::{self, DataspaceModel, DataspaceType};
use crate::early_formats;
use crate::error::{ErrorModel, FormatError};
use crate::group_tree;
use crate::places;
use crate::signature::HDF5_SIGNATURE;
use crate::superblock::{self, Superblock};

verus! {

/// A superblock of version 2 or 3 in front of its checksum: signature, version, the sizes of offsets
/// and lengths, the flags, and the addresses of the base, the extension, the end of the file and the
/// root group.
pub open spec fn body(sb: Superblock) -> Seq<u8> {
    let os = sb.offset_size as int;
    early_formats::signature_bytes() + (seq![
        sb.version,
        sb.offset_size,
        sb.length_size,
        sb.consistency_flags as u8,
    ] + (places::field(sb.base_address as int, os) + (places::field(
        sb.superblock_extension_address->0 as int,
        os,
    ) + (places::field(sb.eof_address as int, os) + places::field(
        sb.root_group_address as int,
        os,
    )))))
}

/// Whether a superblock can be of version 2 or 3: it has what these versions have, and its addresses
/// fit.
pub open spec fn is_late(sb: Superblock) -> bool {
    let limit = bytes::pow256(sb.offset_size as nat);
    &&& sb.version == 2 || sb.version == 3
    &&& superblock::is_size(sb.offset_size)
    &&& superblock::is_size(sb.length_size)
    &&& sb.consistency_flags <= 255
    &&& sb.base_address < limit
    &&& sb.eof_address < limit
    &&& sb.root_group_address < limit
    &&& sb.superblock_extension_address matches Some(a) && a < limit
    &&& sb.group_leaf_node_k is None
    &&& sb.group_internal_node_k is None
    &&& sb.indexed_storage_internal_node_k is None
    &&& sb.free_space_address is None
    &&& sb.driver_info_address is None
    &&& sb.checksum is Some
}

/// A superblock of version 2 or 3 is read as what was written in it where the checksum behind it is
/// that of its bytes, and refused where it is not.
#[verifier::spinoff_prover]
#[verifier::rlimit(60)]
pub proof fn law_late_superblock_is_read_back(sb: Superblock, rest: Seq<u8>)
    requires
        is_late(sb),
    ensures
        superblock::superblock_of((body(sb) + places::field(sb.checksum->0 as int, 4)) + rest)
            == if sb.checksum->0 == crate::checksum::lookup3(body(sb)) {
            Ok::<Superblock, ErrorModel>(sb)
        } else {
            Err(
                ErrorModel::Plain(
                    FormatError::ChecksumMismatch {
                        expected: sb.checksum->0,
                        computed: crate::checksum::lookup3(body(sb)),
                    },
                ),
            )
        },
{
    let os = sb.offset_size as int;
    let w = sb.offset_size;
    let sum = places::field(sb.checksum->0 as int, 4);
    let d = (body(sb) + sum) + rest;
    let sig = early_formats::signature_bytes();
    let head = seq![sb.version, sb.offset_size, sb.length_size, sb.consistency_flags as u8];
    let a1 = places::field(sb.base_address as int, os);
    let a2 = places::field(sb.superblock_extension_address->0 as int, os);
    let a3 = places::field(sb.eof_address as int, os);
    let a4 = places::field(sb.root_group_address as int, os);
    places::lemma_field_len(sb.base_address as int, os);
    places::lemma_field_len(sb.superblock_extension_address->0 as int, os);
    places::lemma_field_len(sb.eof_address as int, os);
    places::lemma_field_len(sb.root_group_address as int, os);
    places::lemma_field_len(sb.checksum->0 as int, 4);
    places::lemma_whole(d);
    places::lemma_parts(d, 0, body(sb) + sum, rest);
    places::lemma_parts(d, 0, body(sb), sum);
    let end = 12 + 4 * os;
    assert(body(sb).len() == end);
    places::lemma_u32(d, end, sb.checksum->0 as int);
    places::lemma_parts(d, 0, sig, head + (a1 + (a2 + (a3 + a4))));
    assert(HDF5_SIGNATURE@ =~= sig);
    places::lemma_parts(d, 8, head, a1 + (a2 + (a3 + a4)));
    places::lemma_byte(d, 8, head, 0);
    places::lemma_byte(d, 8, head, 1);
    places::lemma_byte(d, 8, head, 2);
    places::lemma_byte(d, 8, head, 3);
    places::lemma_parts(d, 12, a1, a2 + (a3 + a4));
    places::lemma_word(d, 12, sb.base_address as int, w);
    places::lemma_parts(d, 12 + os, a2, a3 + a4);
    places::lemma_word(d, 12 + os, sb.superblock_extension_address->0 as int, w);
    places::lemma_parts(d, 12 + 2 * os, a3, a4);
    places::lemma_word(d, 12 + 2 * os, sb.eof_address as int, w);
    places::lemma_word(d, 12 + 3 * os, sb.root_group_address as int, w);
    assert(superblock::size_error(sb.offset_size, sb.length_size) is None);
    assert(d.subrange(0, end) == body(sb));
}

/// The code of a kind of data space.
pub open spec fn kind_code(t: DataspaceType) -> u8 {
    match t {
        DataspaceType::Scalar => 0,
        DataspaceType::Simple => 1,
        DataspaceType::Null => 2,
    }
}

/// A data space of version 2: version, rank, flags, kind, the dimensions, and the largest dimensions
/// if the flags say so.
pub open spec fn late_space_bytes(s: DataspaceModel, high: u8, ls: u8) -> Seq<u8> {
    seq![
        2u8,
        s.rank,
        early_formats::space_flags(s.max_dimensions is Some, high),
        kind_code(s.space_type),
    ] + (chunk_tree::offsets_bytes(s.dimensions, 0, ls) + match s.max_dimensions {
        Some(l) => chunk_tree::offsets_bytes(l, 0, ls),
        None => Seq::empty(),
    })
}

/// A data space of version 2 is read as what was written in it, whatever stands behind it.
#[verifier::spinoff_prover]
#[verifier::rlimit(60)]
pub proof fn law_late_dataspace_is_read_back(s: DataspaceModel, high: u8, rest: Seq<u8>, ls: u8)
    requires
        superblock::is_size(ls),
        s.rank == s.dimensions.len(),
        group_tree::are_fields(s.dimensions, ls),
        s.max_dimensions matches Some(l) ==> l.len() == s.rank && group_tree::are_fields(l, ls),
    ensures
        dataspace::dataspace_of(late_space_bytes(s, high, ls) + rest, ls) == Ok::<
            DataspaceModel,
            ErrorModel,
        >(s),
{
    let d = late_space_bytes(s, high, ls) + rest;
    let front = seq![
        2u8,
        s.rank,
        early_formats::space_flags(s.max_dimensions is Some, high),
        kind_code(s.space_type),
    ];
    let dims = s.dimensions;
    let a = chunk_tree::offsets_bytes(dims, 0, ls);
    let b = match s.max_dimensions {
        Some(l) => chunk_tree::offsets_bytes(l, 0, ls),
        None => Seq::empty(),
    };
    places::lemma_whole(d);
    places::lemma_parts(d, 0, front + (a + b), rest);
    places::lemma_parts(d, 0, front, a + b);
    places::lemma_byte(d, 0, front, 0);
    places::lemma_byte(d, 0, front, 1);
    places::lemma_byte(d, 0, front, 2);
    places::lemma_byte(d, 0, front, 3);
    early_formats::lemma_space_flags(s.max_dimensions is Some, high);
    places::lemma_parts(d, 4, a, b);
    chunk_tree::lemma_offsets_len(dims, 0, ls);
    early_formats::lemma_lengths(d, 4, dims, 0, ls);
    assert(dims.take(0) =~= Seq::<u64>::empty());
    if let Some(l) = s.max_dimensions {
        early_formats::lemma_lengths(d, 4 + dims.len() * ls, l, 0, ls);
        assert(l.take(0) =~= Seq::<u64>::empty());
    }
}

proof fn lemma_positive(n: nat)
    ensures
        bytes::pow256(n) > 0,
    decreases n,
{
    if n > 0 {
        lemma_positive((n - 1) as nat);
    }
}

/// Byte `i` of a field is the `i`-th digit of its number to the base 256, the lowest first, and the
/// number of a field is the sum of its digits, each times its place.
pub proof fn law_fields_are_little_endian(v: nat, n: nat, i: nat)
    requires
        i < n,
    ensures
        places::field(v as int, n as int).len() == n,
        places::field(v as int, n as int)[i as int] == v / bytes::pow256(i) % 256,
        bytes::pow256(0) == 1,
        bytes::pow256(i + 1) == 256 * bytes::pow256(i),
    decreases i,
{
    places::lemma_field_len(v as int, n as int);
    if i > 0 {
        let k = (i - 1) as nat;
        law_fields_are_little_endian(v / 256, (n - 1) as nat, k);
        lemma_positive(k);
        vstd::arithmetic::div_mod::lemma_div_denominator(v as int, 256, bytes::pow256(k) as int);
        let rest = bytes::le_bytes(v / 256, (n - 1) as nat);
        assert(bytes::le_bytes(v, n) == seq![(v % 256) as u8] + rest);
        assert((seq![(v % 256) as u8] + rest)[i as int] == rest[i - 1]);
    } else {
        assert(v / 1 == v) by (nonlinear_arith);
    }
}

/// The number that bytes hold grows by a digit's place with each unit of the digit.
pub proof fn law_number_of_bytes(s: Seq<u8>, t: Seq<u8>)
    ensures
        bytes::le_value(s + t) == bytes::le_value(s) + bytes::pow256(s.len()) * bytes::le_value(t),
        s.len() == 1 ==> bytes::le_value(s) == s[0],
    decreases s.len(),
{
    if s.len() == 0 {
        assert(s + t =~= t);
        assert(bytes::pow256(s.len()) == 1);
        assert(1 * bytes::le_value(t) == bytes::le_value(t));
    } else {
        let u = s.subrange(1, s.len() as int);
        law_number_of_bytes(u, t);
        assert((s + t).subrange(1, (s + t).len() as int) =~= u + t);
        let a = bytes::pow256(u.len());
        let b = bytes::le_value(t);
        assert(bytes::pow256(s.len()) == 256 * a);
        assert(256 * (a * b) == (256 * a) * b) by (nonlinear_arith);
        assert((s + t)[0] == s[0]);
        assert(bytes::le_value(s + t) == s[0] + 256 * bytes::le_value(u + t));
        if s.len() == 1 {
            assert(u =~= Seq::empty());
        }
    }
}

} // verus!

//! What is written in the formats of early versions is read from them.

use vstd::prelude::*;
use vstd::utf8::*;
use crate::attribute::{self, AttributeModel};
use crate::bytes;
use crate::dataspace::{self, DataspaceModel, DataspaceType};
use crate::datatype;
use crate::datatype_versions;
use crate::error::ErrorModel;
use crate::places;
use crate::signature::HDF5_SIGNATURE;
use crate::superblock::{self, Superblock};

verus! {

// ---- Superblocks ----

/// The signature of a file.
pub open spec fn signature_bytes() -> Seq<u8> {
    seq![0x89u8, 0x48, 0x44, 0x46, 0x0D, 0x0A, 0x1A, 0x0A]
}

/// A superblock of version 0 or 1: signature, version, four versions of other structures, the sizes
/// of offsets and lengths, a reserved byte, the ranks of the group trees, in version 1 the rank of
/// the chunk trees and two reserved bytes, the flags, four addresses, and the symbol table entry of
/// the root group: the place of its name, its address, and what is cached of it.
pub open spec fn superblock_bytes(
    sb: Superblock,
    versions: Seq<u8>,
    reserved: u8,
    gap: Seq<u8>,
    name_offset: u64,
    cached: Seq<u8>,
) -> Seq<u8> {
    let os = sb.offset_size as int;
    signature_bytes() + (seq![sb.version] + (versions + (seq![sb.offset_size, sb.length_size, reserved]
        + (places::field(sb.group_leaf_node_k->0 as int, 2) + (places::field(
        sb.group_internal_node_k->0 as int,
        2,
    ) + ((if sb.version == 1 {
        places::field(sb.indexed_storage_internal_node_k->0 as int, 2) + gap
    } else {
        Seq::empty()
    }) + (places::field(sb.consistency_flags as int, 4) + (places::field(
        sb.base_address as int,
        os,
    ) + (places::field(sb.free_space_address->0 as int, os) + (places::field(
        sb.eof_address as int,
        os,
    ) + (places::field(sb.driver_info_address->0 as int, os) + (places::field(
        name_offset as int,
        os,
    ) + (places::field(sb.root_group_address as int, os) + cached)))))))))))))
}

/// Whether a superblock can be of version 0 or 1: it has what these versions have, and its addresses
/// fit.
pub open spec fn is_early(sb: Superblock) -> bool {
    let limit = bytes::pow256(sb.offset_size as nat);
    &&& sb.version == 0 || sb.version == 1
    &&& superblock::is_size(sb.offset_size)
    &&& superblock::is_size(sb.length_size)
    &&& sb.base_address < limit
    &&& sb.eof_address < limit
    &&& sb.root_group_address < limit
    &&& sb.group_leaf_node_k is Some
    &&& sb.group_internal_node_k is Some
    &&& sb.indexed_storage_internal_node_k is Some <==> sb.version == 1
    &&& sb.free_space_address matches Some(a) && a < limit
    &&& sb.driver_info_address matches Some(a) && a < limit
    &&& sb.superblock_extension_address is None
    &&& sb.checksum is None
}

/// A superblock of version 0 or 1 is read as what was written in it, whatever stands behind it.
#[verifier::spinoff_prover]
#[verifier::rlimit(60)]
pub proof fn law_early_superblock_is_read_back(
    sb: Superblock,
    versions: Seq<u8>,
    reserved: u8,
    gap: Seq<u8>,
    name_offset: u64,
    cached: Seq<u8>,
    rest: Seq<u8>,
)
    requires
        is_early(sb),
        versions.len() == 4,
        gap.len() == 2,
        name_offset < bytes::pow256(sb.offset_size as nat),
        cached.len() == 24,
    ensures
        superblock::superblock_of(
            superblock_bytes(sb, versions, reserved, gap, name_offset, cached) + rest,
        ) == Ok::<Superblock, ErrorModel>(sb),
{
    let d = superblock_bytes(sb, versions, reserved, gap, name_offset, cached) + rest;
    let os = sb.offset_size as int;
    let w = sb.offset_size;
    let sig = signature_bytes();
    let sizes = seq![sb.offset_size, sb.length_size, reserved];
    let k1 = places::field(sb.group_leaf_node_k->0 as int, 2);
    let k2 = places::field(sb.group_internal_node_k->0 as int, 2);
    let k3 = places::field(sb.indexed_storage_internal_node_k->0 as int, 2);
    let third = if sb.version == 1 {
        k3 + gap
    } else {
        Seq::empty()
    };
    let fl = places::field(sb.consistency_flags as int, 4);
    let a1 = places::field(sb.base_address as int, os);
    let a2 = places::field(sb.free_space_address->0 as int, os);
    let a3 = places::field(sb.eof_address as int, os);
    let a4 = places::field(sb.driver_info_address->0 as int, os);
    let a5 = places::field(name_offset as int, os);
    let a6 = places::field(sb.root_group_address as int, os);
    places::lemma_field_len(sb.group_leaf_node_k->0 as int, 2);
    places::lemma_field_len(sb.group_internal_node_k->0 as int, 2);
    places::lemma_field_len(sb.indexed_storage_internal_node_k->0 as int, 2);
    places::lemma_field_len(sb.consistency_flags as int, 4);
    places::lemma_field_len(sb.base_address as int, os);
    places::lemma_field_len(sb.free_space_address->0 as int, os);
    places::lemma_field_len(sb.eof_address as int, os);
    places::lemma_field_len(sb.driver_info_address->0 as int, os);
    places::lemma_field_len(name_offset as int, os);
    places::lemma_field_len(sb.root_group_address as int, os);
    let r6 = a6 + cached;
    let r5 = a5 + r6;
    let r4 = a4 + r5;
    let r3 = a3 + r4;
    let r2 = a2 + r3;
    let r1 = a1 + r2;
    let rf = fl + r1;
    let rt = third + rf;
    let rk2 = k2 + rt;
    let rk1 = k1 + rk2;
    let rs = sizes + rk1;
    let rv = versions + rs;
    let rb = seq![sb.version] + rv;
    places::lemma_whole(d);
    places::lemma_parts(d, 0, sig + rb, rest);
    places::lemma_parts(d, 0, sig, rb);
    assert(HDF5_SIGNATURE@ =~= sig);
    places::lemma_parts(d, 8, seq![sb.version], rv);
    places::lemma_byte(d, 8, seq![sb.version], 0);
    places::lemma_parts(d, 9, versions, rs);
    places::lemma_parts(d, 13, sizes, rk1);
    places::lemma_byte(d, 13, sizes, 0);
    places::lemma_byte(d, 13, sizes, 1);
    places::lemma_parts(d, 16, k1, rk2);
    places::lemma_u16(d, 16, sb.group_leaf_node_k->0 as int);
    places::lemma_parts(d, 18, k2, rt);
    places::lemma_u16(d, 18, sb.group_internal_node_k->0 as int);
    places::lemma_parts(d, 20, third, rf);
    if sb.version == 1 {
        places::lemma_parts(d, 20, k3, gap);
        places::lemma_u16(d, 20, sb.indexed_storage_internal_node_k->0 as int);
    }
    let f = 20 + third.len() as int;
    places::lemma_parts(d, f, fl, r1);
    places::lemma_u32(d, f, sb.consistency_flags as int);
    let start = f + 4;
    places::lemma_parts(d, start, a1, r2);
    places::lemma_word(d, start, sb.base_address as int, w);
    places::lemma_parts(d, start + os, a2, r3);
    places::lemma_word(d, start + os, sb.free_space_address->0 as int, w);
    places::lemma_parts(d, start + 2 * os, a3, r4);
    places::lemma_word(d, start + 2 * os, sb.eof_address as int, w);
    places::lemma_parts(d, start + 3 * os, a4, r5);
    places::lemma_word(d, start + 3 * os, sb.driver_info_address->0 as int, w);
    places::lemma_parts(d, start + 4 * os, a5, r6);
    places::lemma_parts(d, start + 5 * os, a6, cached);
    places::lemma_word(d, start + 5 * os, sb.root_group_address as int, w);
    assert(superblock::size_error(sb.offset_size, sb.length_size) is None);
}

// ---- Data spaces ----

/// The flags of a data space: the lowest bit says whether there are largest dimensions, and the
/// others can be any.
pub open spec fn space_flags(limited: bool, high: u8) -> u8 {
    ((if limited {
        1int
    } else {
        0
    }) + 2 * (high % 128)) as u8
}

pub proof fn lemma_space_flags(limited: bool, high: u8)
    ensures
        space_flags(limited, high) % 2 == 0 <==> !limited,
{
}

/// A data space of version 1: version, rank, flags, five reserved bytes, the dimensions, and the
/// largest dimensions if the flags say so.
pub open spec fn space_bytes(
    dims: Seq<u64>,
    limits: Option<Seq<u64>>,
    high: u8,
    reserved: Seq<u8>,
    ls: u8,
) -> Seq<u8> {
    seq![1u8, dims.len() as u8, space_flags(limits is Some, high)] + (reserved + (crate::chunk_tree::offsets_bytes(
        dims,
        0,
        ls,
    ) + match limits {
        Some(l) => crate::chunk_tree::offsets_bytes(l, 0, ls),
        None => Seq::empty(),
    }))
}

pub proof fn lemma_lengths(d: Seq<u8>, p: int, dims: Seq<u64>, k: int, ls: u8)
    requires
        superblock::is_size(ls),
        0 <= k <= dims.len(),
        crate::group_tree::are_fields(dims, ls),
        places::stands(d, p, crate::chunk_tree::offsets_bytes(dims, k, ls)),
    ensures
        dataspace::lengths_at(d, p, (dims.len() - k) as nat, ls, dims.take(k)) == Ok::<
            Seq<u64>,
            ErrorModel,
        >(dims),
    decreases dims.len() - k,
{
    if k < dims.len() {
        let b = places::field(dims[k] as int, ls as int);
        places::lemma_field_len(dims[k] as int, ls as int);
        assert(dims[k] < bytes::pow256(ls as nat));
        places::lemma_parts(d, p, b, crate::chunk_tree::offsets_bytes(dims, k + 1, ls));
        places::lemma_word(d, p, dims[k] as int, ls);
        assert(dims.take(k).push(dims[k]) =~= dims.take(k + 1));
        lemma_lengths(d, p + ls, dims, k + 1, ls);
    } else {
        assert(dims.take(k) =~= dims);
    }
}

/// A data space of version 1 is read as its dimensions and its largest dimensions, whatever stands
/// behind it. One without dimensions is scalar.
#[verifier::spinoff_prover]
#[verifier::rlimit(60)]
pub proof fn law_early_dataspace_is_read_back(
    dims: Seq<u64>,
    limits: Option<Seq<u64>>,
    high: u8,
    reserved: Seq<u8>,
    rest: Seq<u8>,
    ls: u8,
)
    requires
        superblock::is_size(ls),
        dims.len() <= 255,
        reserved.len() == 5,
        crate::group_tree::are_fields(dims, ls),
        limits matches Some(l) ==> l.len() == dims.len() && crate::group_tree::are_fields(l, ls),
    ensures
        dataspace::dataspace_of(space_bytes(dims, limits, high, reserved, ls) + rest, ls) == Ok::<
            DataspaceModel,
            ErrorModel,
        >(
            DataspaceModel {
                space_type: if dims.len() == 0 {
                    DataspaceType::Scalar
                } else {
                    DataspaceType::Simple
                },
                rank: dims.len() as u8,
                dimensions: dims,
                max_dimensions: limits,
            },
        ),
{
    let d = space_bytes(dims, limits, high, reserved, ls) + rest;
    let front = seq![1u8, dims.len() as u8, space_flags(limits is Some, high)];
    let a = crate::chunk_tree::offsets_bytes(dims, 0, ls);
    let b = match limits {
        Some(l) => crate::chunk_tree::offsets_bytes(l, 0, ls),
        None => Seq::empty(),
    };
    places::lemma_whole(d);
    places::lemma_parts(d, 0, front + (reserved + (a + b)), rest);
    places::lemma_parts(d, 0, front, reserved + (a + b));
    places::lemma_byte(d, 0, front, 0);
    places::lemma_byte(d, 0, front, 1);
    places::lemma_byte(d, 0, front, 2);
    lemma_space_flags(limits is Some, high);
    places::lemma_parts(d, 3, reserved, a + b);
    places::lemma_parts(d, 8, a, b);
    crate::chunk_tree::lemma_offsets_len(dims, 0, ls);
    lemma_lengths(d, 8, dims, 0, ls);
    assert(dims.take(0) =~= Seq::<u64>::empty());
    if let Some(l) = limits {
        lemma_lengths(d, 8 + dims.len() * ls, l, 0, ls);
        assert(l.take(0) =~= Seq::<u64>::empty());
    }
}

/// The number of elements of a data space is the product of its dimensions: one more dimension
/// multiplies it. A scalar has one element; a null data space, and a simple one without dimensions,
/// have none.
#[verifier::rlimit(30)]
pub proof fn law_elements_multiply(s: DataspaceModel, n: u64)
    requires
        s.space_type == DataspaceType::Simple,
        s.dimensions.len() > 0,
    ensures
        (DataspaceModel { dimensions: s.dimensions.push(n), ..s }).elements() == s.elements() * n,
        (DataspaceModel { dimensions: seq![n], ..s }).elements() == n,
        (DataspaceModel { dimensions: Seq::empty(), ..s }).elements() == 0,
        (DataspaceModel { space_type: DataspaceType::Scalar, ..s }).elements() == 1,
        (DataspaceModel { space_type: DataspaceType::Null, ..s }).elements() == 0,
{
    let k = s.dimensions.len() as int;
    let more = s.dimensions.push(n);
    lemma_product_front(s.dimensions, more, k);
    assert(more[k] == n);
    assert(dataspace::product(more, k + 1) == dataspace::product(more, k) * n as nat);
    reveal_with_fuel(dataspace::product, 2);
    assert(dataspace::product(seq![n], 1) == 1 * n as nat);
}

proof fn lemma_product_front(a: Seq<u64>, b: Seq<u64>, n: int)
    requires
        0 <= n <= a.len() <= b.len(),
        forall|i: int| 0 <= i < a.len() ==> a[i] == b[i],
    ensures
        dataspace::product(a, n) == dataspace::product(b, n),
    decreases n,
{
    if n > 0 {
        lemma_product_front(a, b, n - 1);
    }
}

// ---- Attributes ----

/// A field of an attribute, filled up to a multiple of eight bytes in version 1.
pub open spec fn filled(b: Seq<u8>, version: int) -> Seq<u8> {
    b + if version == 1 {
        datatype_versions::filler(b.len() as int)
    } else {
        Seq::empty()
    }
}

/// An attribute message: version, a reserved byte, the sizes of name, type and data space, in
/// version 3 the character set of the name, name, type, data space, value.
pub open spec fn attribute_bytes(
    version: int,
    reserved: u8,
    charset: u8,
    name: Seq<u8>,
    kind: Seq<u8>,
    space: Seq<u8>,
    value: Seq<u8>,
) -> Seq<u8> {
    seq![version as u8, reserved] + (places::field(name.len() as int, 2) + (places::field(
        kind.len() as int,
        2,
    ) + (places::field(space.len() as int, 2) + ((if version == 3 {
        seq![charset]
    } else {
        Seq::empty()
    }) + (filled(name, version) + (filled(kind, version) + (filled(space, version) + value)))))))
}

/// Whether the bytes of a name field hold a name: a zero byte ends it, if it does not fill the
/// field.
pub open spec fn holds_name(b: Seq<u8>, name: Seq<char>) -> bool {
    let t = encode_utf8(name);
    &&& datatype::is_name(name)
    &&& t.len() <= b.len()
    &&& b.subrange(0, t.len() as int) == t
    &&& t.len() < b.len() ==> b[t.len() as int] == 0
}

proof fn lemma_name_field(b: Seq<u8>, name: Seq<char>)
    requires
        holds_name(b, name),
    ensures
        attribute::name_of(b) == name,
{
    let t = encode_utf8(name);
    let n = t.len() as int;
    crate::text::lemma_text_round_trip(name);
    crate::text::lemma_no_zero_byte(name);
    assert forall|i: int| 0 <= i < n implies b[i] != 0 by {
        assert(b.subrange(0, n)[i] == t[i]);
    }
    crate::text::lemma_zero_from_is(b, 0, n);
}

#[verifier::spinoff_prover]
#[verifier::rlimit(40)]
proof fn lemma_attribute_fields(
    d: Seq<u8>,
    version: int,
    reserved: u8,
    charset: u8,
    name: Seq<u8>,
    kind: Seq<u8>,
    space: Seq<u8>,
    value: Seq<u8>,
    rest: Seq<u8>,
)
    requires
        version == 1 || version == 2 || version == 3,
        name.len() <= 0xFFFF,
        kind.len() <= 0xFFFF,
        space.len() <= 0xFFFF,
        d == attribute_bytes(version, reserved, charset, name, kind, space, value) + rest,
    ensures
        ({
            let start: int = if version == 3 {
                9
            } else {
                8
            };
            let padded = version == 1;
            let p = start + attribute::field_size(name.len() as int, padded);
            let q = p + attribute::field_size(kind.len() as int, padded);
            let v = q + attribute::field_size(space.len() as int, padded);
            &&& d[0] == version
            &&& bytes::u16_at(d, 2) == name.len()
            &&& bytes::u16_at(d, 4) == kind.len()
            &&& bytes::u16_at(d, 6) == space.len()
            &&& places::stands(d, start, name)
            &&& places::stands(d, p, kind)
            &&& places::stands(d, q, space)
            &&& places::stands(d, v, value)
            &&& v + value.len() + rest.len() == d.len()
        }),
{
    let front = seq![version as u8, reserved];
    let a = places::field(name.len() as int, 2);
    let b = places::field(kind.len() as int, 2);
    let c = places::field(space.len() as int, 2);
    let set = if version == 3 {
        seq![charset]
    } else {
        Seq::empty()
    };
    let fname = filled(name, version);
    let fkind = filled(kind, version);
    let fspace = filled(space, version);
    places::lemma_field_len(name.len() as int, 2);
    places::lemma_field_len(kind.len() as int, 2);
    places::lemma_field_len(space.len() as int, 2);
    let r5 = fspace + value;
    let r4 = fkind + r5;
    let r3 = fname + r4;
    let r2 = set + r3;
    places::lemma_whole(d);
    places::lemma_parts(d, 0, front + (a + (b + (c + r2))), rest);
    places::lemma_parts(d, 0, front, a + (b + (c + r2)));
    places::lemma_byte(d, 0, front, 0);
    places::lemma_parts(d, 2, a, b + (c + r2));
    places::lemma_u16(d, 2, name.len() as int);
    places::lemma_parts(d, 4, b, c + r2);
    places::lemma_u16(d, 4, kind.len() as int);
    places::lemma_parts(d, 6, c, r2);
    places::lemma_u16(d, 6, space.len() as int);
    places::lemma_parts(d, 8, set, r3);
    let start = 8 + set.len() as int;
    places::lemma_parts(d, start, fname, r4);
    places::lemma_parts(d, start + fname.len(), fkind, r5);
    places::lemma_parts(d, start + fname.len() + fkind.len(), fspace, value);
    lemma_filled(d, start, name, version);
    lemma_filled(d, start + fname.len(), kind, version);
    lemma_filled(d, start + fname.len() + fkind.len(), space, version);
}

proof fn lemma_filled(d: Seq<u8>, p: int, b: Seq<u8>, version: int)
    requires
        places::stands(d, p, filled(b, version)),
    ensures
        places::stands(d, p, b),
        filled(b, version).len() == attribute::field_size(b.len() as int, version == 1),
{
    if version == 1 {
        places::lemma_parts(d, p, b, datatype_versions::filler(b.len() as int));
    } else {
        places::lemma_parts(d, p, b, Seq::empty());
    }
}

/// An attribute message of any version is read as its name, its type, its data space and its value,
/// if the value has the size that type and data space call for. Bytes behind a value that is not
/// empty change nothing.
#[verifier::spinoff_prover]
#[verifier::rlimit(40)]
pub proof fn law_attribute_of_any_version_is_read_back(
    version: int,
    reserved: u8,
    charset: u8,
    name: Seq<u8>,
    kind: Seq<u8>,
    space: Seq<u8>,
    m: AttributeModel,
    rest: Seq<u8>,
    ls: u8,
)
    requires
        version == 1 || version == 2 || version == 3,
        name.len() <= 0xFFFF,
        kind.len() <= 0xFFFF,
        space.len() <= 0xFFFF,
        holds_name(name, m.name),
        datatype::parsed(kind) matches Ok((t, used)) && t == m.datatype,
        dataspace::dataspace_of(space, ls) == Ok::<DataspaceModel, ErrorModel>(m.dataspace),
        m.raw_data.len() == m.dataspace.elements() * m.datatype.size(),
        m.raw_data.len() == 0 ==> rest.len() == 0,
    ensures
        attribute::attribute_of(
            attribute_bytes(version, reserved, charset, name, kind, space, m.raw_data) + rest,
            ls,
        ) == Ok::<AttributeModel, ErrorModel>(m),
{
    let d = attribute_bytes(version, reserved, charset, name, kind, space, m.raw_data) + rest;
    lemma_attribute_fields(
        d,
        version,
        reserved,
        charset,
        name,
        kind,
        space,
        m.raw_data,
        rest,
    );
    lemma_name_field(name, m.name);
    let start: int = if version == 3 {
        9
    } else {
        8
    };
    let padded = version == 1;
    let p = start + attribute::field_size(name.len() as int, padded);
    let q = p + attribute::field_size(kind.len() as int, padded);
    let v = q + attribute::field_size(space.len() as int, padded);
    assert(d.subrange(p, p + kind.len()) == kind);
    assert(d.subrange(q, q + space.len()) == space);
    assert(d.subrange(start, start + name.len()) == name);
    assert(attribute::value_at(d, v, m.dataspace, m.datatype.size()) =~= m.raw_data) by {
        assert(d.subrange(v, v + m.raw_data.len()) == m.raw_data);
    }
    assert(attribute::attribute_from(d, start, padded, ls) == Ok::<AttributeModel, ErrorModel>(m));
}

} // verus!

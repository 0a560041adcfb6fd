//! HDF5 superblocks of versions 0, 1, 2, and 3.

use vstd::prelude::*;
use vstd::slice::slice_subrange;
use crate::bytes::{order_u16, order_u32, put_address, put_slice, put_u32, same_bytes};
use crate::checksum::jenkins_lookup3;
use crate::error::{ErrorModel, FormatError};
use crate::signature::HDF5_SIGNATURE;
use crate::utils::{ensure_len, read_offset};

verus! {

broadcast use vstd::std_specs::control_flow::group_control_flow_axioms;

/// Parsed HDF5 superblock (all versions).
#[derive(Debug, Clone, Copy, PartialEq, Eq)]
pub struct Superblock {
    /// Superblock version (0-3).
    pub version: u8,
    /// Size of offsets in bytes (2, 4, or 8).
    pub offset_size: u8,
    /// Size of lengths in bytes (2, 4, or 8).
    pub length_size: u8,
    /// File base address.
    pub base_address: u64,
    /// End-of-file address.
    pub eof_address: u64,
    /// Root group object header address (v2/v3) or from symbol table entry (v0/v1).
    pub root_group_address: u64,
    /// Group leaf node K (v0/v1 only).
    pub group_leaf_node_k: Option<u16>,
    /// Group internal node K (v0/v1 only).
    pub group_internal_node_k: Option<u16>,
    /// Indexed storage internal node K (v1 only).
    pub indexed_storage_internal_node_k: Option<u16>,
    /// Free space address (v0/v1 only).
    pub free_space_address: Option<u64>,
    /// Driver info block address (v0/v1 only).
    pub driver_info_address: Option<u64>,
    /// File consistency flags.
    pub consistency_flags: u32,
    /// Superblock extension address (v2/v3 only).
    pub superblock_extension_address: Option<u64>,
    /// Checksum (v2/v3 only).
    pub checksum: Option<u32>,
}

impl DeepView for Superblock {
    type V = Superblock;

    open spec fn deep_view(&self) -> Superblock {
        *self
    }
}

/// Whether a size of offsets or lengths is allowed.
pub open spec fn is_size(size: u8) -> bool {
    size == 2 || size == 4 || size == 8
}

/// The error for sizes that are not allowed, if there is one.
pub open spec fn size_error(offset_size: u8, length_size: u8) -> Option<ErrorModel> {
    if !is_size(offset_size) {
        Some(ErrorModel::Plain(FormatError::InvalidOffsetSize(offset_size)))
    } else if !is_size(length_size) {
        Some(ErrorModel::Plain(FormatError::InvalidLengthSize(length_size)))
    } else {
        None
    }
}

fn validate_sizes(offset_size: u8, length_size: u8) -> (r: Result<(), FormatError>)
    ensures
        match r {
            Ok(()) => size_error(offset_size, length_size) is None,
            Err(e) => size_error(offset_size, length_size) == Some(e.deep_view()),
        },
{
    if !matches!(offset_size, 2 | 4 | 8) {
        return Err(FormatError::InvalidOffsetSize(offset_size));
    }
    if !matches!(length_size, 2 | 4 | 8) {
        return Err(FormatError::InvalidLengthSize(length_size));
    }
    Ok(())
}

/// The superblock at the front of `d`.
pub open spec fn superblock_of(d: Seq<u8>) -> Result<Superblock, ErrorModel> {
    if !crate::utils::fits(d, 0, 9) {
        Err(crate::utils::eof(d, 0, 9))
    } else if d.subrange(0, 8) != HDF5_SIGNATURE@ {
        Err(ErrorModel::Plain(FormatError::SignatureNotFound))
    } else if d[8] == 0 {
        early_superblock(d, 0, 24)
    } else if d[8] == 1 {
        early_superblock(d, 1, 28)
    } else if d[8] == 2 || d[8] == 3 {
        late_superblock(d, d[8])
    } else {
        Err(ErrorModel::Plain(FormatError::UnsupportedVersion(d[8])))
    }
}

/// The superblock of version 0 or 1, whose addresses start at `start`: base, free space, end of
/// file, driver info, then the root group's symbol table entry.
pub open spec fn early_superblock(d: Seq<u8>, version: u8, start: int) -> Result<
    Superblock,
    ErrorModel,
> {
    let os = d[13];
    let total = start + 6 * os + 24;
    if !crate::utils::fits(d, 0, start) {
        Err(crate::utils::eof(d, 0, start))
    } else if size_error(os, d[14]) is Some {
        Err(size_error(os, d[14])->0)
    } else if !crate::utils::fits(d, 0, total) {
        Err(crate::utils::eof(d, 0, total))
    } else {
        Ok(
            Superblock {
                version,
                offset_size: os,
                length_size: d[14],
                base_address: crate::utils::uint_at(d, start, os),
                eof_address: crate::utils::uint_at(d, start + 2 * os, os),
                root_group_address: crate::utils::uint_at(d, start + 5 * os, os),
                group_leaf_node_k: Some(crate::bytes::u16_at(d, 16)),
                group_internal_node_k: Some(crate::bytes::u16_at(d, 18)),
                indexed_storage_internal_node_k: if version == 1 {
                    Some(crate::bytes::u16_at(d, 20))
                } else {
                    None
                },
                free_space_address: Some(crate::utils::uint_at(d, start + os, os)),
                driver_info_address: Some(crate::utils::uint_at(d, start + 3 * os, os)),
                consistency_flags: crate::bytes::u32_at(d, start - 4),
                superblock_extension_address: None,
                checksum: None,
            },
        )
    }
}

/// The superblock of version 2 or 3: base, extension, end of file and root group address, then
/// the checksum of all before it.
pub open spec fn late_superblock(d: Seq<u8>, version: u8) -> Result<Superblock, ErrorModel> {
    let os = d[9];
    let end = 12 + 4 * os;
    if !crate::utils::fits(d, 0, 12) {
        Err(crate::utils::eof(d, 0, 12))
    } else if size_error(os, d[10]) is Some {
        Err(size_error(os, d[10])->0)
    } else if !crate::utils::fits(d, 0, end + 4) {
        Err(crate::utils::eof(d, 0, end + 4))
    } else {
        let expected = crate::bytes::u32_at(d, end);
        let computed = crate::checksum::lookup3(d.subrange(0, end));
        if computed != expected {
            Err(ErrorModel::Plain(FormatError::ChecksumMismatch { expected, computed }))
        } else {
            Ok(
                Superblock {
                    version,
                    offset_size: os,
                    length_size: d[10],
                    base_address: crate::utils::uint_at(d, 12, os),
                    eof_address: crate::utils::uint_at(d, 12 + 2 * os, os),
                    root_group_address: crate::utils::uint_at(d, 12 + 3 * os, os),
                    group_leaf_node_k: None,
                    group_internal_node_k: None,
                    indexed_storage_internal_node_k: None,
                    free_space_address: None,
                    driver_info_address: None,
                    consistency_flags: d[11] as u32,
                    superblock_extension_address: Some(crate::utils::uint_at(d, 12 + os, os)),
                    checksum: Some(expected),
                },
            )
        }
    }
}

impl Superblock {
    /// The extension address as written: all ones where there is none.
    pub open spec fn written_extension(self) -> u64 {
        match self.superblock_extension_address {
            Some(a) => a,
            None => u64::MAX,
        }
    }

    /// The bytes in front of the checksum.
    pub open spec fn body_bytes(self) -> Seq<u8> {
        HDF5_SIGNATURE@ + seq![
            self.version,
            self.offset_size,
            self.length_size,
            (self.consistency_flags % 256) as u8,
        ] + crate::bytes::address_bytes(self.base_address, self.offset_size) + crate::bytes::address_bytes(
            self.written_extension(),
            self.offset_size,
        ) + crate::bytes::address_bytes(self.eof_address, self.offset_size) + crate::bytes::address_bytes(
            self.root_group_address,
            self.offset_size,
        )
    }

    /// The bytes of the superblock in the format of versions 2 and 3.
    pub open spec fn bytes(self) -> Seq<u8> {
        self.body_bytes() + crate::bytes::le_bytes(
            crate::checksum::lookup3(self.body_bytes()) as nat,
            4,
        )
    }

    /// Serialize this superblock to bytes.
    ///
    /// Always writes v2/v3 format. Computes and appends Jenkins lookup3 checksum.
    pub fn serialize(&self) -> (buf: Vec<u8>)
        ensures
            buf@ == self.bytes(),
    {
        let mut buf: Vec<u8> = Vec::with_capacity(48);
        put_slice(&mut buf, &HDF5_SIGNATURE);
        assert(buf@ =~= HDF5_SIGNATURE@);
        buf.push(self.version);
        buf.push(self.offset_size);
        buf.push(self.length_size);
        buf.push((self.consistency_flags % 256) as u8);
        assert(buf@ =~= HDF5_SIGNATURE@ + seq![
            self.version,
            self.offset_size,
            self.length_size,
            (self.consistency_flags % 256) as u8,
        ]);
        put_address(&mut buf, self.base_address, self.offset_size);
        let ext_addr: u64 = match self.superblock_extension_address {
            Some(a) => a,
            None => u64::MAX,
        };
        put_address(&mut buf, ext_addr, self.offset_size);
        put_address(&mut buf, self.eof_address, self.offset_size);
        put_address(&mut buf, self.root_group_address, self.offset_size);
        let checksum = jenkins_lookup3(buf.as_slice());
        put_u32(&mut buf, checksum);
        buf
    }

    /// Parse a superblock from `data` starting at `signature_offset`.
    ///
    /// The signature must be present at the given offset.
    pub fn parse(data: &[u8], signature_offset: usize) -> (r: Result<Self, FormatError>)
        requires
            signature_offset <= data@.len(),
        ensures
            crate::error::outcome(r) == superblock_of(
                data@.subrange(signature_offset as int, data@.len() as int),
            ),
    {
        let d = slice_subrange(data, signature_offset, data.len());
        ensure_len(d, 0, 9)?;
        if !same_bytes(slice_subrange(d, 0, 8), &HDF5_SIGNATURE) {
            return Err(FormatError::SignatureNotFound);
        }
        match d[8] {
            0 => Superblock::parse_v0(d),
            1 => Superblock::parse_v1(d),
            2 => Superblock::parse_v2v3(d, 2),
            3 => Superblock::parse_v2v3(d, 3),
            v => Err(FormatError::UnsupportedVersion(v)),
        }
    }

    fn parse_v0(d: &[u8]) -> (r: Result<Self, FormatError>)
        ensures
            crate::error::outcome(r) == early_superblock(d@, 0, 24),
    {
        ensure_len(d, 0, 24)?;
        let offset_size = d[13];
        let length_size = d[14];
        validate_sizes(offset_size, length_size)?;
        let group_leaf_node_k = order_u16(slice_subrange(d, 16, 18));
        let group_internal_node_k = order_u16(slice_subrange(d, 18, 20));
        let consistency_flags = order_u32(slice_subrange(d, 20, 24));
        let os: usize = offset_size as usize;
        let total: usize = 24 + 4 * os + (os + os + 4 + 4 + 16);
        ensure_len(d, 0, total)?;
        let base_address = read_offset(d, 24, offset_size)?;
        let free_space_address = read_offset(d, 24 + os, offset_size)?;
        let eof_address = read_offset(d, 24 + 2 * os, offset_size)?;
        let driver_info_address = read_offset(d, 24 + 3 * os, offset_size)?;
        let object_header_addr = read_offset(d, 24 + 5 * os, offset_size)?;
        Ok(
            Superblock {
                version: 0,
                offset_size,
                length_size,
                base_address,
                eof_address,
                root_group_address: object_header_addr,
                group_leaf_node_k: Some(group_leaf_node_k),
                group_internal_node_k: Some(group_internal_node_k),
                indexed_storage_internal_node_k: None,
                free_space_address: Some(free_space_address),
                driver_info_address: Some(driver_info_address),
                consistency_flags,
                superblock_extension_address: None,
                checksum: None,
            },
        )
    }

    fn parse_v1(d: &[u8]) -> (r: Result<Self, FormatError>)
        ensures
            crate::error::outcome(r) == early_superblock(d@, 1, 28),
    {
        ensure_len(d, 0, 28)?;
        let offset_size = d[13];
        let length_size = d[14];
        validate_sizes(offset_size, length_size)?;
        let group_leaf_node_k = order_u16(slice_subrange(d, 16, 18));
        let group_internal_node_k = order_u16(slice_subrange(d, 18, 20));
        let indexed_storage_internal_node_k = order_u16(slice_subrange(d, 20, 22));
        let consistency_flags = order_u32(slice_subrange(d, 24, 28));
        let os: usize = offset_size as usize;
        let total: usize = 28 + 4 * os + (os + os + 4 + 4 + 16);
        ensure_len(d, 0, total)?;
        let base_address = read_offset(d, 28, offset_size)?;
        let free_space_address = read_offset(d, 28 + os, offset_size)?;
        let eof_address = read_offset(d, 28 + 2 * os, offset_size)?;
        let driver_info_address = read_offset(d, 28 + 3 * os, offset_size)?;
        let object_header_addr = read_offset(d, 28 + 5 * os, offset_size)?;
        Ok(
            Superblock {
                version: 1,
                offset_size,
                length_size,
                base_address,
                eof_address,
                root_group_address: object_header_addr,
                group_leaf_node_k: Some(group_leaf_node_k),
                group_internal_node_k: Some(group_internal_node_k),
                indexed_storage_internal_node_k: Some(indexed_storage_internal_node_k),
                free_space_address: Some(free_space_address),
                driver_info_address: Some(driver_info_address),
                consistency_flags,
                superblock_extension_address: None,
                checksum: None,
            },
        )
    }

    fn parse_v2v3(d: &[u8], version: u8) -> (r: Result<Self, FormatError>)
        ensures
            crate::error::outcome(r) == late_superblock(d@, version),
    {
        ensure_len(d, 0, 12)?;
        let offset_size = d[9];
        let length_size = d[10];
        validate_sizes(offset_size, length_size)?;
        let consistency_flags = d[11] as u32;
        let os: usize = offset_size as usize;
        let total: usize = 12 + 4 * os + 4;
        ensure_len(d, 0, total)?;
        let base_address = read_offset(d, 12, offset_size)?;
        let superblock_extension_address = read_offset(d, 12 + os, offset_size)?;
        let eof_address = read_offset(d, 12 + 2 * os, offset_size)?;
        let root_group_address = read_offset(d, 12 + 3 * os, offset_size)?;
        let pos: usize = 12 + 4 * os;
        let stored_checksum = order_u32(slice_subrange(d, pos, pos + 4));
        let computed = jenkins_lookup3(slice_subrange(d, 0, pos));
        if computed != stored_checksum {
            return Err(FormatError::ChecksumMismatch { expected: stored_checksum, computed });
        }
        Ok(
            Superblock {
                version,
                offset_size,
                length_size,
                base_address,
                eof_address,
                root_group_address,
                group_leaf_node_k: None,
                group_internal_node_k: None,
                indexed_storage_internal_node_k: None,
                free_space_address: None,
                driver_info_address: None,
                consistency_flags,
                superblock_extension_address: Some(superblock_extension_address),
                checksum: Some(stored_checksum),
            },
        )
    }
}

/// Parsing a serialized superblock of version 2 or 3 gives back what versions 2 and 3 hold,
/// reduced to the width of the fields: a missing extension address reads as all ones, and the
/// checksum is that of the bytes before it.
pub proof fn law_superblock_round_trip(sb: Superblock, rest: Seq<u8>)
    requires
        sb.version == 2 || sb.version == 3,
        is_size(sb.offset_size),
        is_size(sb.length_size),
    ensures
        ({
            let limit = crate::bytes::pow256(sb.offset_size as nat);
            superblock_of(sb.bytes() + rest) == Ok::<Superblock, ErrorModel>(
                Superblock {
                    version: sb.version,
                    offset_size: sb.offset_size,
                    length_size: sb.length_size,
                    base_address: (sb.base_address as nat % limit) as u64,
                    eof_address: (sb.eof_address as nat % limit) as u64,
                    root_group_address: (sb.root_group_address as nat % limit) as u64,
                    group_leaf_node_k: None,
                    group_internal_node_k: None,
                    indexed_storage_internal_node_k: None,
                    free_space_address: None,
                    driver_info_address: None,
                    consistency_flags: (sb.consistency_flags % 256) as u32,
                    superblock_extension_address: Some(
                        (sb.written_extension() as nat % limit) as u64,
                    ),
                    checksum: Some(crate::checksum::lookup3(sb.body_bytes())),
                },
            )
        }),
{
    let os = sb.offset_size;
    let n = os as nat;
    let d = sb.bytes() + rest;
    let flags = (sb.consistency_flags % 256) as u8;
    let s = HDF5_SIGNATURE@;
    let h = seq![sb.version, os, sb.length_size, flags];
    let a = crate::bytes::le_bytes(sb.base_address as nat, n);
    let b = crate::bytes::le_bytes(sb.written_extension() as nat, n);
    let c = crate::bytes::le_bytes(sb.eof_address as nat, n);
    let e = crate::bytes::le_bytes(sb.root_group_address as nat, n);
    let sum = crate::checksum::lookup3(sb.body_bytes());
    let f = crate::bytes::le_bytes(sum as nat, 4);
    crate::bytes::lemma_le_bytes_len(sb.base_address as nat, n);
    crate::bytes::lemma_le_bytes_len(sb.written_extension() as nat, n);
    crate::bytes::lemma_le_bytes_len(sb.eof_address as nat, n);
    crate::bytes::lemma_le_bytes_len(sb.root_group_address as nat, n);
    crate::bytes::lemma_le_bytes_len(sum as nat, 4);
    assert(s.len() == 8);
    lemma_layout(d, os as int, s, h, a, b, c, e, f, rest);
    let t = d.subrange(8, 12);
    assert(t[0] == d[8] && t[1] == d[9] && t[2] == d[10] && t[3] == d[11]);
    crate::utils::lemma_uint_round_trip(d, 12, sb.base_address as nat, os);
    crate::utils::lemma_uint_round_trip(d, 12 + os, sb.written_extension() as nat, os);
    crate::utils::lemma_uint_round_trip(d, 12 + 2 * os, sb.eof_address as nat, os);
    crate::utils::lemma_uint_round_trip(d, 12 + 3 * os, sb.root_group_address as nat, os);
    crate::bytes::lemma_u32_round_trip(d, 12 + 4 * os, sum);
}

proof fn lemma_layout(
    d: Seq<u8>,
    n: int,
    s: Seq<u8>,
    h: Seq<u8>,
    a: Seq<u8>,
    b: Seq<u8>,
    c: Seq<u8>,
    e: Seq<u8>,
    f: Seq<u8>,
    rest: Seq<u8>,
)
    requires
        d == s + h + a + b + c + e + f + rest,
        s.len() == 8,
        h.len() == 4,
        a.len() == b.len() == c.len() == e.len() == n,
        f.len() == 4,
    ensures
        d.len() == 16 + 4 * n + rest.len(),
        d.subrange(0, 8) == s,
        d.subrange(8, 12) == h,
        d.subrange(12, 12 + n) == a,
        d.subrange(12 + n, 12 + n + n) == b,
        d.subrange(12 + 2 * n, 12 + 2 * n + n) == c,
        d.subrange(12 + 3 * n, 12 + 3 * n + n) == e,
        d.subrange(12 + 4 * n, 12 + 4 * n + 4) == f,
        d.subrange(0, 12 + 4 * n) == s + h + a + b + c + e,
{
    assert(d.subrange(0, 8) =~= s);
    assert(d.subrange(8, 12) =~= h);
    assert(d.subrange(12, 12 + n) =~= a);
    assert(d.subrange(12 + n, 12 + n + n) =~= b);
    assert(d.subrange(12 + 2 * n, 12 + 2 * n + n) =~= c);
    assert(d.subrange(12 + 3 * n, 12 + 3 * n + n) =~= e);
    assert(d.subrange(12 + 4 * n, 12 + 4 * n + 4) =~= f);
    assert(d.subrange(0, 12 + 4 * n) =~= s + h + a + b + c + e);
}

} // verus!

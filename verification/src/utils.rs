//! Helpers shared by the parsers: bounds checks and integers of variable width.

use vstd::prelude::*;
use crate::bytes::{get_u16, get_u32, get_u64};
use crate::checksum::jenkins_lookup3;
use crate::error::FormatError;

verus! {

broadcast use vstd::std_specs::control_flow::group_control_flow_axioms;

/// Whether `d` holds `n` bytes from `pos` on.
pub open spec fn fits(d: Seq<u8>, pos: int, n: int) -> bool {
    pos + n <= d.len()
}

/// The error for `n` bytes that `d` does not hold from `pos` on.
pub open spec fn eof(d: Seq<u8>, pos: int, n: int) -> crate::error::ErrorModel {
    crate::error::ErrorModel::Plain(
        FormatError::UnexpectedEof {
            expected: if pos + n > usize::MAX {
                usize::MAX
            } else {
                (pos + n) as usize
            },
            available: d.len() as usize,
        },
    )
}

/// An error without owned text.
pub open spec fn plain(e: FormatError) -> crate::error::ErrorModel {
    crate::error::ErrorModel::Plain(e)
}

/// Check that `data` has at least `offset + needed` bytes available.
pub fn ensure_len(data: &[u8], offset: usize, needed: usize) -> (r: Result<(), FormatError>)
    ensures
        r is Ok <==> fits(data@, offset as int, needed as int),
        r matches Err(e) ==> e.deep_view() == eof(data@, offset as int, needed as int),
{
    match offset.checked_add(needed) {
        Some(end) if end <= data.len() => Ok(()),
        _ => Err(
            FormatError::UnexpectedEof {
                expected: offset.saturating_add(needed),
                available: data.len(),
            },
        ),
    }
}

/// The unsigned integer of `size` bytes at `pos`.
pub open spec fn uint_at(d: Seq<u8>, pos: int, size: u8) -> u64 {
    if size == 1 {
        d[pos] as u64
    } else if size == 2 {
        crate::bytes::u16_at(d, pos) as u64
    } else if size == 4 {
        crate::bytes::u32_at(d, pos) as u64
    } else {
        crate::bytes::u64_at(d, pos)
    }
}

/// Whether an integer can be `size` bytes wide.
pub open spec fn is_width(size: u8) -> bool {
    size == 1 || size == 2 || size == 4 || size == 8
}

/// The integer of `size` bytes at `pos` is the value of those bytes.
pub proof fn lemma_uint_is_le_value(d: Seq<u8>, pos: int, size: u8)
    requires
        0 <= pos,
        pos + size <= d.len(),
        is_width(size),
    ensures
        uint_at(d, pos, size) == crate::bytes::le_value(d.subrange(pos, pos + size)),
{
    let s = d.subrange(pos, pos + size);
    if size == 1 {
        reveal_with_fuel(crate::bytes::le_value, 2);
    } else if size == 2 {
        crate::bytes::lemma_le_value_2(s);
        assert(crate::bytes::u16_at(s, 0) == crate::bytes::u16_at(d, pos));
    } else if size == 4 {
        crate::bytes::lemma_le_value_4(s);
        assert(crate::bytes::u32_at(s, 0) == crate::bytes::u32_at(d, pos));
    } else {
        crate::bytes::lemma_le_value_8(s);
        assert(crate::bytes::u32_at(s, 0) == crate::bytes::u32_at(d, pos));
        assert(crate::bytes::u32_at(s, 4) == crate::bytes::u32_at(d, pos + 4));
    }
}

/// The integer read where the `size` low bytes of `v` stand is `v`, reduced to `size` bytes.
pub proof fn lemma_uint_round_trip(d: Seq<u8>, pos: int, v: nat, size: u8)
    requires
        0 <= pos,
        pos + size <= d.len(),
        is_width(size),
        d.subrange(pos, pos + size) == crate::bytes::le_bytes(v, size as nat),
    ensures
        uint_at(d, pos, size) == v % crate::bytes::pow256(size as nat),
        v < crate::bytes::pow256(size as nat) ==> uint_at(d, pos, size) == v,
{
    lemma_uint_is_le_value(d, pos, size);
    crate::bytes::lemma_le_round_trip(v, size as nat);
    if v < crate::bytes::pow256(size as nat) {
        vstd::arithmetic::div_mod::lemma_small_mod(v, crate::bytes::pow256(size as nat));
    }
}

/// What reading an integer of `size` bytes at `pos` gives.
pub open spec fn offset_at(d: Seq<u8>, pos: int, size: u8) -> Result<
    u64,
    crate::error::ErrorModel,
> {
    if !fits(d, pos, size as int) {
        Err(eof(d, pos, size as int))
    } else if !is_width(size) {
        Err(plain(FormatError::InvalidOffsetSize(size)))
    } else {
        Ok(uint_at(d, pos, size))
    }
}

/// Read a little-endian unsigned integer of `size` bytes (1, 2, 4, or 8) from `data` at `pos`.
pub fn read_offset(data: &[u8], pos: usize, size: u8) -> (r: Result<u64, FormatError>)
    ensures
        crate::error::outcome(r) == offset_at(data@, pos as int, size),
{
    let s: usize = size as usize;
    ensure_len(data, pos, s)?;
    match size {
        1 => Ok(data[pos] as u64),
        2 => Ok(get_u16(data, pos) as u64),
        4 => Ok(get_u32(data, pos) as u64),
        8 => Ok(get_u64(data, pos)),
        _ => Err(FormatError::InvalidOffsetSize(size)),
    }
}

/// Whether `val` is the undefined address (all ones) for addresses of `offset_size` bytes.
pub open spec fn undefined_offset(val: u64, offset_size: u8) -> bool {
    ||| offset_size == 2 && val == 0xFFFF
    ||| offset_size == 4 && val == 0xFFFF_FFFF
    ||| offset_size == 8 && val == 0xFFFF_FFFF_FFFF_FFFF
}

/// Check if a 64-bit address value is the "undefined address" for a given offset size.
/// Undefined addresses are all-ones values: 0xFFFF (2-byte), 0xFFFF_FFFF (4-byte),
/// 0xFFFF_FFFF_FFFF_FFFF (8-byte).
pub fn is_undefined_offset(val: u64, offset_size: u8) -> (r: bool)
    ensures
        r == undefined_offset(val, offset_size),
{
    match offset_size {
        2 => val == 0xFFFF,
        4 => val == 0xFFFF_FFFF,
        8 => val == 0xFFFF_FFFF_FFFF_FFFF,
        _ => false,
    }
}

/// The address of `size` bytes at `pos`, if it is defined.
pub open spec fn defined_at(d: Seq<u8>, pos: int, size: u8) -> Result<
    Option<u64>,
    crate::error::ErrorModel,
> {
    match offset_at(d, pos, size) {
        Err(e) => Err(e),
        Ok(v) => Ok(
            if undefined_offset(v, size) {
                None
            } else {
                Some(v)
            },
        ),
    }
}

/// Read an address of `size` bytes, `None` if it is undefined.
pub fn read_defined(data: &[u8], pos: usize, size: u8) -> (r: Result<Option<u64>, FormatError>)
    ensures
        match r {
            Ok(a) => defined_at(data@, pos as int, size) == Ok::<
                Option<u64>,
                crate::error::ErrorModel,
            >(a),
            Err(e) => defined_at(data@, pos as int, size) == Err::<
                Option<u64>,
                crate::error::ErrorModel,
            >(e.deep_view()),
        },
{
    let v = read_offset(data, pos, size)?;
    if is_undefined_offset(v, size) {
        Ok(None)
    } else {
        Ok(Some(v))
    }
}

/// Whether `d` holds `size` bytes at `pos`, all of them 0xFF.
pub open spec fn undefined_bytes(d: Seq<u8>, pos: int, size: u8) -> bool {
    fits(d, pos, size as int) && forall|k: int| pos <= k < pos + size ==> d[k] == 0xFF
}

/// Check if `size` bytes starting at `pos` in `data` are all 0xFF (undefined address).
pub fn is_undefined_bytes(data: &[u8], pos: usize, size: u8) -> (r: bool)
    requires
        pos + size <= usize::MAX,
    ensures
        r == undefined_bytes(data@, pos as int, size),
{
    let s: usize = size as usize;
    if pos + s > data.len() {
        return false;
    }
    let end: usize = pos + s;
    let mut k: usize = pos;
    while k < end
        invariant
            pos <= k <= end,
            end == pos + size,
            end <= data@.len(),
            forall|j: int| pos <= j < k ==> data@[j] == 0xFF,
        decreases end - k,
    {
        if data[k] != 0xFF {
            return false;
        }
        k += 1;
    }
    true
}

/// `n` rounded up to a multiple of eight.
pub open spec fn padded8(n: int) -> int {
    (n + 7) / 8 * 8
}

/// Round `n` up to the next multiple of eight.
pub fn pad8(n: usize) -> (r: usize)
    requires
        n + 7 <= usize::MAX,
    ensures
        r == padded8(n as int),
{
    (n + 7) / 8 * 8
}

/// Read a little-endian unsigned integer of `nbytes` bytes from the front of `data`.
pub fn read_variable_length(data: &[u8], nbytes: usize) -> (r: Result<u64, FormatError>)
    requires
        nbytes <= 8,
    ensures
        crate::error::outcome(r) == if fits(data@, 0, nbytes as int) {
            Ok(crate::bytes::le_value(data@.subrange(0, nbytes as int)) as u64)
        } else {
            Err(eof(data@, 0, nbytes as int))
        },
{
    ensure_len(data, 0, nbytes)?;
    let mut val: u64 = 0;
    let mut k: usize = nbytes;
    let ghost whole = data@.subrange(0, nbytes as int);
    proof {
        assert(whole.subrange(nbytes as int, nbytes as int) =~= Seq::<u8>::empty());
        crate::bytes::lemma_pow256_values();
        assert(crate::bytes::pow256(0) == 1);
    }
    while k > 0
        invariant
            k <= nbytes <= 8,
            nbytes <= data@.len(),
            whole == data@.subrange(0, nbytes as int),
            val == crate::bytes::le_value(whole.subrange(k as int, nbytes as int)),
        decreases k,
    {
        k -= 1;
        proof {
            let tail = whole.subrange(k as int, nbytes as int);
            assert(tail.subrange(1, tail.len() as int) =~= whole.subrange(k + 1, nbytes as int));
            crate::bytes::lemma_le_value_bytes(tail);
            lemma_pow256_bound(tail.len());
        }
        val = data[k] as u64 + 256 * val;
    }
    assert(whole.subrange(0, nbytes as int) =~= whole);
    Ok(val)
}

proof fn lemma_pow256_bound(n: nat)
    requires
        n <= 8,
    ensures
        crate::bytes::pow256(n) <= 0x1_0000_0000_0000_0000,
{
    reveal_with_fuel(crate::bytes::pow256, 9);
}

/// What verifying the checksum stored at `pos`, of the bytes from `offset` to `pos`, gives.
pub open spec fn stored_checksum(d: Seq<u8>, offset: int, pos: int) -> Result<
    (),
    crate::error::ErrorModel,
> {
    if !fits(d, pos, 4) {
        Err(eof(d, pos, 4))
    } else {
        let expected = crate::bytes::u32_at(d, pos);
        let computed = crate::checksum::lookup3(d.subrange(offset, pos));
        if computed != expected {
            Err(plain(FormatError::ChecksumMismatch { expected, computed }))
        } else {
            Ok(())
        }
    }
}

/// Verify the checksum stored at `pos` against the bytes from `offset` to `pos`.
pub fn checksum_mismatch(data: &[u8], offset: usize, pos: usize) -> (r: Result<(), FormatError>)
    requires
        offset <= pos,
    ensures
        crate::error::outcome(r) == stored_checksum(data@, offset as int, pos as int),
{
    ensure_len(data, pos, 4)?;
    let expected = get_u32(data, pos);
    let computed = jenkins_lookup3(vstd::slice::slice_subrange(data, offset, pos));
    if computed != expected {
        return Err(FormatError::ChecksumMismatch { expected, computed });
    }
    Ok(())
}

} // verus!

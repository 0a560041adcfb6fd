//! Bytes that stand at a place of a file, and the fields that they hold.

use vstd::prelude::*;
use crate::bytes;
use crate::error::ErrorModel;

verus! {

/// Whether the bytes `b` stand at `p`.
pub open spec fn stands(d: Seq<u8>, p: int, b: Seq<u8>) -> bool {
    &&& 0 <= p
    &&& p + b.len() <= d.len()
    &&& d.subrange(p, p + b.len()) == b
}

/// The `n` low bytes of a number, least significant first.
pub open spec fn field(v: int, n: int) -> Seq<u8> {
    bytes::le_bytes(v as nat, n as nat)
}

/// Bytes that hold nothing.
pub open spec fn zeros(n: int) -> Seq<u8> {
    Seq::new(n as nat, |i: int| 0u8)
}

/// All of `d` stands at its front.
pub proof fn lemma_whole(d: Seq<u8>)
    ensures
        stands(d, 0, d),
{
    assert(d.subrange(0, d.len() as int) =~= d);
}

/// What stands in a part stands in the whole.
pub proof fn lemma_within(d: Seq<u8>, p: int, b: Seq<u8>, q: int, c: Seq<u8>)
    requires
        stands(d, p, b),
        stands(b, q, c),
    ensures
        stands(d, p + q, c),
{
    assert forall|i: int| 0 <= i < c.len() implies d[p + q + i] == c[i] by {
        assert(b.subrange(q, q + c.len())[i] == c[i]);
        assert(d.subrange(p, p + b.len())[q + i] == b[q + i]);
    }
    assert(d.subrange(p + q, p + q + c.len()) =~= c);
}

/// Of two parts, the first stands where both do and the second behind it.
pub proof fn lemma_parts(d: Seq<u8>, p: int, a: Seq<u8>, b: Seq<u8>)
    requires
        stands(d, p, a + b),
    ensures
        stands(d, p, a),
        stands(d, p + a.len(), b),
{
    let s = d.subrange(p, p + (a + b).len());
    assert(d.subrange(p, p + a.len()) =~= s.subrange(0, a.len() as int));
    assert((a + b).subrange(0, a.len() as int) =~= a);
    assert(d.subrange(p + a.len(), p + a.len() + b.len()) =~= s.subrange(
        a.len() as int,
        (a + b).len() as int,
    ));
    assert((a + b).subrange(a.len() as int, (a + b).len() as int) =~= b);
}

/// A single byte.
pub proof fn lemma_byte(d: Seq<u8>, p: int, b: Seq<u8>, i: int)
    requires
        stands(d, p, b),
        0 <= i < b.len(),
    ensures
        d[p + i] == b[i],
{
    assert(d.subrange(p, p + b.len())[i] == b[i]);
}

pub proof fn lemma_tag(d: Seq<u8>, p: int, tag: Seq<u8>)
    requires
        stands(d, p, tag),
        tag.len() == 4,
    ensures
        bytes::has_tag(d, p, tag),
{
}

pub proof fn lemma_field_len(v: int, n: int)
    requires
        0 <= n,
    ensures
        field(v, n).len() == n,
{
    bytes::lemma_le_bytes_len(v as nat, n as nat);
}

pub proof fn lemma_u16(d: Seq<u8>, p: int, v: int)
    requires
        stands(d, p, field(v, 2)),
        0 <= v <= 0xFFFF,
    ensures
        bytes::u16_at(d, p) == v,
        p + 2 <= d.len(),
{
    lemma_field_len(v, 2);
    bytes::lemma_u16_round_trip(d, p, v as u16);
}

pub proof fn lemma_u32(d: Seq<u8>, p: int, v: int)
    requires
        stands(d, p, field(v, 4)),
        0 <= v <= 0xFFFF_FFFF,
    ensures
        bytes::u32_at(d, p) == v,
        p + 4 <= d.len(),
{
    lemma_field_len(v, 4);
    bytes::lemma_u32_round_trip(d, p, v as u32);
}

/// An integer of the given width.
pub proof fn lemma_word(d: Seq<u8>, p: int, v: int, os: u8)
    requires
        stands(d, p, field(v, os as int)),
        crate::utils::is_width(os),
        0 <= v < bytes::pow256(os as nat),
    ensures
        crate::utils::uint_at(d, p, os) == v,
        crate::utils::offset_at(d, p, os) == Ok::<u64, ErrorModel>(v as u64),
        p + os <= d.len(),
{
    lemma_field_len(v, os as int);
    crate::utils::lemma_uint_round_trip(d, p, v as nat, os);
    bytes::lemma_pow256_values();
}

/// Every address fits in eight bytes.
pub proof fn lemma_width_bound(os: u8)
    requires
        crate::utils::is_width(os),
    ensures
        0 < bytes::pow256(os as nat) <= 0x1_0000_0000_0000_0000,
{
    bytes::lemma_pow256_values();
}

// ---- Addresses ----

/// The bytes of an address. One that is undefined has all bits set.
pub open spec fn address(a: Option<u64>, os: u8) -> Seq<u8> {
    match a {
        Some(v) => field(v as int, os as int),
        None => Seq::new(os as nat, |i: int| 0xFFu8),
    }
}

/// Whether an address that is defined can be told from one that is not.
pub open spec fn is_address(a: Option<u64>, os: u8) -> bool {
    a matches Some(v) ==> v + 1 < bytes::pow256(os as nat)
}

proof fn lemma_all_bits(s: Seq<u8>)
    requires
        forall|i: int| 0 <= i < s.len() ==> s[i] == 0xFF,
    ensures
        bytes::le_value(s) + 1 == bytes::pow256(s.len()),
    decreases s.len(),
{
    if s.len() > 0 {
        lemma_all_bits(s.subrange(1, s.len() as int));
    }
}

pub proof fn lemma_address(d: Seq<u8>, p: int, a: Option<u64>, os: u8)
    requires
        stands(d, p, address(a, os)),
        crate::utils::is_width(os),
        is_address(a, os),
    ensures
        crate::data_layout::address_at(d, p, os) == Ok::<Option<u64>, ErrorModel>(a),
        address(a, os).len() == os,
        p + os <= d.len(),
{
    match a {
        Some(v) => {
            let b = field(v as int, os as int);
            lemma_field_len(v as int, os as int);
            lemma_word(d, p, v as int, os);
            if crate::utils::undefined_bytes(d, p, os) {
                assert forall|i: int| 0 <= i < b.len() implies b[i] == 0xFF by {
                    lemma_byte(d, p, b, i);
                    assert(d[p + i] == 0xFF);
                }
                lemma_all_bits(b);
                bytes::lemma_le_round_trip(v as nat, os as nat);
                vstd::arithmetic::div_mod::lemma_small_mod(v as nat, bytes::pow256(os as nat));
            }
        },
        None => {
            let b = address(a, os);
            assert forall|k: int| p <= k < p + os implies d[k] == 0xFF by {
                lemma_byte(d, p, b, k - p);
            }
        },
    }
}

/// An address takes as many bytes as its width says.
pub proof fn lemma_address_len(a: Option<u64>, os: u8)
    ensures
        address(a, os).len() == os,
{
    if let Some(v) = a {
        lemma_field_len(v as int, os as int);
    }
}

} // verus!

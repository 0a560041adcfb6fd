//! What the filters do to each byte.

use vstd::prelude::*;
use vstd::arithmetic::div_mod;
use crate::filters;

verus! {

// ---- Shuffle ----

/// Shuffling moves byte `j` of element `i` to place `i` of block `j`: the blocks hold the first
/// bytes of all elements, then the second ones, and so on. Undoing it moves the byte back.
pub proof fn law_shuffle_moves_each_byte(d: Seq<u8>, size: u32, i: int, j: int)
    requires
        1 < size <= d.len(),
        0 <= j < size,
        0 <= i < d.len() as int / size as int,
    ensures
        ({
            let n = d.len() as int / size as int;
            &&& filters::shuffle_of(d, size)[j * n + i] == d[i * size + j]
            &&& filters::unshuffle_of(d, size)[i * size + j] == d[j * n + i]
        }),
{
    let s = size as int;
    let n = d.len() as int / s;
    div_mod::lemma_fundamental_div_mod(d.len() as int, s);
    div_mod::lemma_mod_bound(d.len() as int, s);
    div_mod::lemma_fundamental_div_mod_converse(j * n + i, n, j, i);
    div_mod::lemma_fundamental_div_mod_converse(i * s + j, s, i, j);
    assert(0 <= j * n + i < n * s && 0 <= i * s + j < n * s && n * s == s * n) by (nonlinear_arith)
        requires
            0 <= i,
            i + 1 <= n,
            0 <= j,
            j + 1 <= s,
    ;
}

/// Shuffling and undoing it keep the number of bytes and the bytes behind the last whole element.
/// Data without a whole element stays as it is, and so does data with elements of one byte.
pub proof fn law_shuffle_keeps_the_rest(d: Seq<u8>, size: u32, k: int)
    requires
        size > 0,
        0 <= k < d.len(),
        size == 1 || d.len() as int / size as int * size <= k,
    ensures
        filters::shuffle_of(d, size).len() == d.len(),
        filters::unshuffle_of(d, size).len() == d.len(),
        filters::shuffle_of(d, size)[k] == d[k],
        filters::unshuffle_of(d, size)[k] == d[k],
{
    let s = size as int;
    let n = d.len() as int / s;
    assert(n * s == s * n) by (nonlinear_arith);
}

// ---- Fletcher32 ----

/// The sum of the first `m` 16-bit words, high byte first; a last odd byte is a high byte.
pub open spec fn words_sum(d: Seq<u8>, m: int) -> int
    decreases m,
{
    if m <= 0 {
        0
    } else {
        words_sum(d, m - 1) + d[2 * (m - 1)] * 256 + if 2 * (m - 1) + 1 < d.len() {
            d[2 * (m - 1) + 1] as int
        } else {
            0
        }
    }
}

/// The sum of the sums of the first one, two, and up to `m` words.
pub open spec fn sums_sum(d: Seq<u8>, m: int) -> int
    decreases m,
{
    if m <= 0 {
        0
    } else {
        sums_sum(d, m - 1) + words_sum(d, m)
    }
}

proof fn lemma_folded(x: nat)
    ensures
        (filters::folded(x) - x) % 65535 == 0,
        x < 0x1_0000_0000 ==> filters::folded(x) <= 0x1FFFE,
        x <= 0x1FFFE ==> filters::folded(x) <= 0xFFFF,
{
    let q = x as int / 0x10000;
    let r = x as int % 0x10000;
    assert(x == 0x10000 * q + r);
    assert(filters::folded(x) - x == 65535 * (-q));
    assert((65535 * (-q)) % 65535 == 0) by (nonlinear_arith);
}

/// The number of words since the last block of 360 words.
spec fn in_block(d: Seq<u8>, i: int) -> int {
    if i == d.len() as int / 2 {
        0
    } else {
        i % 360
    }
}

proof fn lemma_triangle(k: int)
    requires
        0 <= k < 360,
    ensures
        k * (k + 1) / 2 + (k + 1) == (k + 1) * (k + 2) / 2,
        0 <= k * (k + 1) / 2 <= 64620,
        0 <= (k + 1) * (k + 2) / 2 <= 64980,
{
    assert((k + 1) * (k + 2) == k * (k + 1) + 2 * (k + 1)) by (nonlinear_arith);
    assert(0 <= k * (k + 1) <= 359 * 360) by (nonlinear_arith)
        requires
            0 <= k <= 359,
    ;
}

#[verifier::spinoff_prover]
#[verifier::rlimit(40)]
proof fn lemma_sums(d: Seq<u8>, i: int)
    requires
        0 <= i <= d.len() as int / 2,
    ensures
        ({
            let (a, b) = filters::sums_to(d, i);
            let k = in_block(d, i);
            &&& (a - words_sum(d, i)) % 65535 == 0
            &&& (b - sums_sum(d, i)) % 65535 == 0
            &&& a <= 0x10168 + 65535 * k
            &&& b <= 0x1FFFE + 0x10168 * k + 65535 * (k * (k + 1) / 2)
        }),
    decreases i,
{
    if i > 0 {
        lemma_sums(d, i - 1);
        let (a, b) = filters::sums_to(d, i - 1);
        let k = (i - 1) % 360;
        assert(in_block(d, i - 1) == k);
        let w = filters::word_at(d, i - 1);
        let a1 = a + w;
        let b1 = b + a1;
        assert(w <= 65535);
        assert(words_sum(d, i) == words_sum(d, i - 1) + w);
        lemma_triangle(k);
        assert(a1 <= 0x10168 + 65535 * (k + 1));
        assert(b1 <= 0x1FFFE + 0x10168 * (k + 1) + 65535 * ((k + 1) * (k + 2) / 2));
        assert((a1 - words_sum(d, i)) % 65535 == 0);
        assert((b1 - sums_sum(d, i)) % 65535 == 0) by {
            assert(b1 - sums_sum(d, i) == (b - sums_sum(d, i - 1)) + (a1 - words_sum(d, i)));
        }
        if i % 360 == 0 || i == d.len() as int / 2 {
            lemma_folded(a1);
            lemma_folded(b1);
            assert(in_block(d, i) == 0);
            assert(a1 as int / 0x10000 <= 0x169);
            assert(b1 < 0x1_0000_0000);
        } else {
            assert(i % 360 == k + 1);
        }
    }
}

proof fn lemma_congruent(x: int, y: int, z: int)
    requires
        (x - y) % 65535 == 0,
        (y - z) % 65535 == 0,
    ensures
        (x - z) % 65535 == 0,
{
    assert(x - z == (x - y) + (y - z));
}

/// The two sums behind the last word, before they are folded for the last time.
spec fn last_sums(d: Seq<u8>) -> (nat, nat) {
    let n = d.len() as int / 2;
    let (a, b) = filters::sums_to(d, n);
    if d.len() % 2 == 1 {
        (
            filters::folded(a + filters::word_at(d, n)),
            filters::folded(b + a + filters::word_at(d, n)),
        )
    } else {
        (a, b)
    }
}

#[verifier::spinoff_prover]
#[verifier::rlimit(40)]
proof fn lemma_last_sums(d: Seq<u8>)
    ensures
        ({
            let m = (d.len() + 1) as int / 2;
            let (a, b) = last_sums(d);
            &&& (a - words_sum(d, m)) % 65535 == 0
            &&& (b - sums_sum(d, m)) % 65535 == 0
            &&& a <= 0x1FFFE
            &&& b <= 0x1FFFE
        }),
{
    let n = d.len() as int / 2;
    let m = (d.len() + 1) as int / 2;
    lemma_sums(d, n);
    let (a, b) = filters::sums_to(d, n);
    assert(in_block(d, n) == 0);
    assert(a <= 0x10168 && b <= 0x1FFFE);
    if d.len() % 2 == 1 {
        let w = filters::word_at(d, n);
        assert(m == n + 1);
        assert(w <= 65535);
        assert(words_sum(d, m) == words_sum(d, n) + w);
        assert(sums_sum(d, m) == sums_sum(d, n) + words_sum(d, m));
        lemma_folded(a + w);
        lemma_folded(b + a + w);
        assert((a + w) - words_sum(d, m) == a - words_sum(d, n));
        assert((b + a + w) - sums_sum(d, m) == (b - sums_sum(d, n)) + (a - words_sum(d, n)));
        lemma_congruent(
            filters::folded(a + w) as int,
            (a + w) as int,
            words_sum(d, m),
        );
        lemma_congruent(
            filters::folded(b + a + w) as int,
            (b + a + w) as int,
            sums_sum(d, m),
        );
    } else {
        assert(m == n);
    }
}

/// The low half of the Fletcher checksum is the sum of all 16-bit words, and the high half the sum
/// of the sums of all leading words, both modulo 65535.
#[verifier::spinoff_prover]
#[verifier::rlimit(40)]
pub proof fn law_fletcher_sums(d: Seq<u8>)
    ensures
        ({
            let m = (d.len() + 1) as int / 2;
            let sum = filters::fletcher32_of(d) as int;
            &&& (sum % 0x10000 - words_sum(d, m)) % 65535 == 0
            &&& (sum / 0x10000 - sums_sum(d, m)) % 65535 == 0
        }),
{
    let m = (d.len() + 1) as int / 2;
    lemma_last_sums(d);
    let (a, b) = last_sums(d);
    lemma_folded(a);
    lemma_folded(b);
    let low = filters::folded(a) as int;
    let high = filters::folded(b) as int;
    lemma_congruent(low, a as int, words_sum(d, m));
    lemma_congruent(high, b as int, sums_sum(d, m));
    let sum = filters::fletcher32_of(d) as int;
    assert(sum == high * 0x10000 + low);
    assert(sum % 0x10000 == low && sum / 0x10000 == high);
}

} // verus!

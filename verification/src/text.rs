//! Text in byte sequences, and the decimal digits of integers.

use vstd::prelude::*;
use vstd::string::*;
use vstd::utf8::*;

verus! {

/// The text that ill-formed `bytes` are turned into, each ill-formed part replaced by U+FFFD.
pub uninterp spec fn repaired_text(bytes: Seq<u8>) -> Seq<char>;

/// The text that `bytes` stand for: what they encode, or the repaired text where they are
/// ill-formed.
pub open spec fn lossy_text(bytes: Seq<u8>) -> Seq<char> {
    if valid_utf8(bytes) {
        decode_utf8(bytes)
    } else {
        repaired_text(bytes)
    }
}

/// Decodes `bytes` as UTF-8, replacing what is ill-formed.
///
/// Trusted: `String::from_utf8_lossy`. The result depends on the bytes alone, and is the text that
/// they encode where they are well-formed. What replaces ill-formed bytes is left to the name
/// [`repaired_text`].
#[verifier::external_body]
pub(crate) fn decode_lossy(bytes: &[u8]) -> (s: String)
    ensures
        valid_utf8(bytes@) ==> s@ == decode_utf8(bytes@),
        !valid_utf8(bytes@) ==> s@ == repaired_text(bytes@),
{
    String::from_utf8_lossy(bytes).into_owned()
}

/// Decodes `bytes` as UTF-8, if they are well-formed.
///
/// Trusted: `str::from_utf8`, which succeeds exactly on well-formed UTF-8.
#[verifier::external_body]
pub(crate) fn decode_strict(bytes: &[u8]) -> (s: Option<String>)
    ensures
        s is Some <==> valid_utf8(bytes@),
        s matches Some(text) ==> text@ == decode_utf8(bytes@),
{
    core::str::from_utf8(bytes).ok().map(String::from)
}

/// The position of the first zero byte at or after `from`, or the length of `d`.
pub open spec fn zero_from(d: Seq<u8>, from: int) -> int
    decreases d.len() - from,
{
    if from >= d.len() || d[from] == 0 {
        from
    } else {
        zero_from(d, from + 1)
    }
}

pub proof fn lemma_zero_from(d: Seq<u8>, from: int)
    requires
        0 <= from <= d.len(),
    ensures
        from <= zero_from(d, from) <= d.len(),
        zero_from(d, from) < d.len() ==> d[zero_from(d, from)] == 0,
        forall|k: int| from <= k < zero_from(d, from) ==> d[k] != 0,
    decreases d.len() - from,
{
    if from < d.len() && d[from] != 0 {
        lemma_zero_from(d, from + 1);
    }
}

/// A zero byte with no other before it is the one that is found.
pub proof fn lemma_zero_from_is(d: Seq<u8>, from: int, at: int)
    requires
        0 <= from <= at <= d.len(),
        at < d.len() ==> d[at] == 0,
        forall|k: int| from <= k < at ==> d[k] != 0,
    ensures
        zero_from(d, from) == at,
    decreases at - from,
{
    if from < at {
        lemma_zero_from_is(d, from + 1, at);
    }
}

/// Finds the first zero byte at or after `from`; the length of `d` if there is none.
pub fn find_zero(d: &[u8], from: usize) -> (p: usize)
    requires
        from <= d@.len(),
    ensures
        p == zero_from(d@, from as int),
        from <= p <= d@.len(),
{
    proof {
        lemma_zero_from(d@, from as int);
    }
    let mut p: usize = from;
    while p < d.len() && d[p] != 0
        invariant
            from <= p <= d@.len(),
            zero_from(d@, p as int) == zero_from(d@, from as int),
        decreases d@.len() - p,
    {
        p += 1;
    }
    p
}

/// Text without a zero character has no zero byte in its encoding.
pub proof fn lemma_no_zero_byte(s: Seq<char>)
    requires
        forall|i: int| 0 <= i < s.len() ==> s[i] != '\0',
    ensures
        forall|k: int| 0 <= k < encode_utf8(s).len() ==> #[trigger] encode_utf8(s)[k] != 0,
    decreases s.len(),
{
    if s.len() > 0 {
        lemma_no_zero_byte(s.drop_first());
        char_is_scalar(s[0]);
        char_u32_cast(s[0], s[0] as u32);
        assert(s[0] != '\0');
        lemma_scalar_no_zero(s[0] as u32);
        let head = encode_scalar(s[0] as u32);
        let tail = encode_utf8(s.drop_first());
        assert(encode_utf8(s) == head + tail);
        assert forall|k: int| 0 <= k < encode_utf8(s).len() implies #[trigger] encode_utf8(s)[k]
            != 0 by {
            if k < head.len() {
                assert(encode_utf8(s)[k] == head[k]);
            } else {
                assert(encode_utf8(s)[k] == tail[k - head.len()]);
            }
        }
    }
}

/// Text whose last character is not zero has an encoding whose last byte is not zero.
pub proof fn lemma_last_byte(s: Seq<char>)
    requires
        s.len() > 0,
        s.last() != '\0',
    ensures
        encode_utf8(s).len() > 0,
        encode_utf8(s).last() != 0,
    decreases s.len(),
{
    let head = encode_scalar(s[0] as u32);
    let tail = encode_utf8(s.drop_first());
    assert(encode_utf8(s) == head + tail);
    char_is_scalar(s[0]);
    char_u32_cast(s[0], s[0] as u32);
    if s.len() == 1 {
        assert(tail =~= Seq::<u8>::empty());
        lemma_scalar_no_zero(s[0] as u32);
        assert(head.len() > 0);
        assert(encode_utf8(s).last() == head[head.len() - 1]);
    } else {
        assert(s.drop_first().last() == s.last());
        lemma_last_byte(s.drop_first());
        assert(encode_utf8(s).last() == tail.last());
    }
}

proof fn lemma_scalar_no_zero(c: u32)
    requires
        is_scalar(c),
        c != 0,
    ensures
        forall|k: int| 0 <= k < encode_scalar(c).len() ==> #[trigger] encode_scalar(c)[k] != 0,
{
    if has_width_1_encoding(c) {
        lemma_width_1(c);
    } else if has_width_2_encoding(c) {
        lemma_width_2(c);
    } else if has_width_3_encoding(c) {
        lemma_width_3(c);
    } else {
        lemma_width_4(c);
    }
}

proof fn lemma_width_1(c: u32)
    by (bit_vector)
    requires
        has_width_1_encoding(c),
        c != 0,
    ensures
        leading_byte_width_1(c) != 0,
{
}

proof fn lemma_width_2(c: u32)
    by (bit_vector)
    requires
        has_width_2_encoding(c),
    ensures
        leading_byte_width_2(c) != 0,
        last_continuation_byte(c) != 0,
{
}

proof fn lemma_width_3(c: u32)
    by (bit_vector)
    requires
        has_width_3_encoding(c),
    ensures
        leading_byte_width_3(c) != 0,
        second_last_continuation_byte(c) != 0,
        last_continuation_byte(c) != 0,
{
}

proof fn lemma_width_4(c: u32)
    by (bit_vector)
    requires
        has_width_4_encoding(c),
    ensures
        leading_byte_width_4(c) != 0,
        third_last_continuation_byte(c) != 0,
        second_last_continuation_byte(c) != 0,
        last_continuation_byte(c) != 0,
{
}

/// The text of the encoding of `s` is `s`.
pub proof fn lemma_text_round_trip(s: Seq<char>)
    ensures
        lossy_text(encode_utf8(s)) == s,
        valid_utf8(encode_utf8(s)),
{
    encode_utf8_valid_utf8(s);
    encode_utf8_decode_utf8(s);
}

/// The decimal digits of `n`.
pub open spec fn decimal(n: nat) -> Seq<char>
    decreases n,
{
    if n < 10 {
        seq![digit(n)]
    } else {
        decimal(n / 10).push(digit(n % 10))
    }
}

/// The character of a single digit.
pub open spec fn digit(n: nat) -> char {
    if n == 0 {
        '0'
    } else if n == 1 {
        '1'
    } else if n == 2 {
        '2'
    } else if n == 3 {
        '3'
    } else if n == 4 {
        '4'
    } else if n == 5 {
        '5'
    } else if n == 6 {
        '6'
    } else if n == 7 {
        '7'
    } else if n == 8 {
        '8'
    } else {
        '9'
    }
}

fn digit_text(n: u64) -> (s: &'static str)
    requires
        n < 10,
    ensures
        s@ == seq![digit(n as nat)],
{
    proof {
        reveal_strlit("0");
        reveal_strlit("1");
        reveal_strlit("2");
        reveal_strlit("3");
        reveal_strlit("4");
        reveal_strlit("5");
        reveal_strlit("6");
        reveal_strlit("7");
        reveal_strlit("8");
        reveal_strlit("9");
    }
    let s = match n {
        0 => "0",
        1 => "1",
        2 => "2",
        3 => "3",
        4 => "4",
        5 => "5",
        6 => "6",
        7 => "7",
        8 => "8",
        _ => "9",
    };
    assert(s@ =~= seq![digit(n as nat)]);
    s
}

/// Appends the decimal digits of `n`.
pub fn put_decimal(s: &mut String, n: u64)
    ensures
        final(s)@ == old(s)@ + decimal(n as nat),
    decreases n,
{
    if n >= 10 {
        put_decimal(s, n / 10);
    }
    let ghost mid = s@;
    s.append(digit_text(n % 10));
    proof {
        let last = seq![digit((n % 10) as nat)];
        if n >= 10 {
            assert(old(s)@ + decimal((n / 10) as nat) + last =~= old(s)@ + decimal(n as nat));
        }
    }
}

/// Whether two texts are the same.
pub fn same_text(a: &str, b: &str) -> (same: bool)
    ensures
        same == (a@ == b@),
{
    proof {
        encode_utf8_decode_utf8(a@);
        encode_utf8_decode_utf8(b@);
    }
    crate::bytes::same_bytes(a.as_bytes(), b.as_bytes())
}

/// `done`, and the parts between slashes of the path from `from` on, of which the characters up to
/// `i` are no slashes. Empty parts are left out.
pub open spec fn parts_from(path: Seq<char>, from: int, i: int, done: Seq<Seq<char>>) -> Seq<
    Seq<char>,
>
    decreases path.len() - i,
{
    if i >= path.len() {
        with_part(path, from, i, done)
    } else if path[i] == '/' {
        parts_from(path, i + 1, i + 1, with_part(path, from, i, done))
    } else {
        parts_from(path, from, i + 1, done)
    }
}

/// `done` and the part of the path from `from` to `i`, if it is not empty.
pub open spec fn with_part(path: Seq<char>, from: int, i: int, done: Seq<Seq<char>>) -> Seq<
    Seq<char>,
> {
    if from < i {
        done.push(path.subrange(from, i))
    } else {
        done
    }
}

/// The parts of a path.
pub open spec fn parts(path: Seq<char>) -> Seq<Seq<char>> {
    parts_from(path, 0, 0, Seq::empty())
}

/// Whether no part holds a slash.
pub open spec fn are_names(list: Seq<Seq<char>>) -> bool {
    forall|k: int, j: int|
        0 <= k < list.len() && 0 <= j < list[k].len() ==> #[trigger] list[k][j] != '/'
}

/// The parts of a path are not empty, and hold no slash.
pub proof fn law_parts_are_names(path: Seq<char>)
    ensures
        are_names(parts(path)),
        forall|k: int| 0 <= k < parts(path).len() ==> (#[trigger] parts(path)[k]).len() > 0,
{
    lemma_parts(path, 0, 0, Seq::empty());
}

proof fn lemma_parts(path: Seq<char>, from: int, i: int, done: Seq<Seq<char>>)
    requires
        0 <= from <= i <= path.len(),
        forall|j: int| from <= j < i ==> path[j] != '/',
        are_names(done),
        forall|k: int| 0 <= k < done.len() ==> (#[trigger] done[k]).len() > 0,
    ensures
        are_names(parts_from(path, from, i, done)),
        forall|k: int|
            0 <= k < parts_from(path, from, i, done).len() ==> (#[trigger] parts_from(
                path,
                from,
                i,
                done,
            )[k]).len() > 0,
    decreases path.len() - i,
{
    let more = with_part(path, from, i, done);
    assert(are_names(more)) by {
        assert forall|k: int, j: int|
            0 <= k < more.len() && 0 <= j < more[k].len() implies #[trigger] more[k][j]
            != '/' by {
            if k < done.len() {
                assert(more[k] == done[k]);
                assert(done[k][j] != '/');
            } else {
                assert(more[k][j] == path[from + j]);
            }
        }
    }
    if i < path.len() {
        if path[i] == '/' {
            lemma_parts(path, i + 1, i + 1, more);
        } else {
            lemma_parts(path, from, i + 1, done);
        }
    }
}

fn put_part(list: &mut Vec<String>, path: &str, from: usize, i: usize)
    requires
        from <= i <= path@.len(),
    ensures
        final(list).deep_view() == with_part(
            path@,
            from as int,
            i as int,
            old(list).deep_view(),
        ),
{
    if from < i {
        let part = path.substring_char(from, i).to_owned();
        let ghost text = part@;
        list.push(part);
        assert(list.deep_view() =~= old(list).deep_view().push(text));
    }
}

/// The parts of a path between slashes, without those that are empty.
pub fn split_path(path: &str) -> (list: Vec<String>)
    ensures
        list.deep_view() == parts(path@),
{
    let n: usize = path.unicode_len();
    let mut list: Vec<String> = Vec::new();
    let mut from: usize = 0;
    let mut i: usize = 0;
    assert(list.deep_view() =~= Seq::<Seq<char>>::empty());
    while i < n
        invariant
            from <= i <= n,
            n == path@.len(),
            parts(path@) == parts_from(path@, from as int, i as int, list.deep_view()),
        decreases n - i,
    {
        if path.get_char(i) == '/' {
            put_part(&mut list, path, from, i);
            from = i + 1;
        }
        i += 1;
    }
    put_part(&mut list, path, from, n);
    list
}

/// The character of a single hexadecimal digit.
pub open spec fn hex_digit(n: nat) -> char {
    if n < 10 {
        digit(n)
    } else if n == 10 {
        'a'
    } else if n == 11 {
        'b'
    } else if n == 12 {
        'c'
    } else if n == 13 {
        'd'
    } else if n == 14 {
        'e'
    } else {
        'f'
    }
}

/// The first `n` of the bytes, two hexadecimal digits each.
pub open spec fn hex(bytes: Seq<u8>, n: int) -> Seq<char>
    decreases n,
{
    if n <= 0 {
        Seq::empty()
    } else {
        hex(bytes, n - 1).push(hex_digit((bytes[n - 1] / 16) as nat)).push(
            hex_digit((bytes[n - 1] % 16) as nat),
        )
    }
}

fn hex_digit_text(n: u8) -> (s: &'static str)
    requires
        n < 16,
    ensures
        s@ == seq![hex_digit(n as nat)],
{
    if n < 10 {
        return digit_text(n as u64);
    }
    proof {
        reveal_strlit("a");
        reveal_strlit("b");
        reveal_strlit("c");
        reveal_strlit("d");
        reveal_strlit("e");
        reveal_strlit("f");
    }
    let s = match n {
        10 => "a",
        11 => "b",
        12 => "c",
        13 => "d",
        14 => "e",
        _ => "f",
    };
    assert(s@ =~= seq![hex_digit(n as nat)]);
    s
}

/// Appends the bytes, two hexadecimal digits each.
pub fn put_hex(s: &mut String, bytes: &[u8])
    ensures
        final(s)@ == old(s)@ + hex(bytes@, bytes@.len() as int),
{
    let mut k: usize = 0;
    assert(s@ =~= old(s)@ + hex(bytes@, 0));
    while k < bytes.len()
        invariant
            k <= bytes@.len(),
            s@ == old(s)@ + hex(bytes@, k as int),
        decreases bytes@.len() - k,
    {
        let ghost before = s@;
        s.append(hex_digit_text(bytes[k] / 16));
        s.append(hex_digit_text(bytes[k] % 16));
        assert(s@ =~= old(s)@ + hex(bytes@, k + 1));
        k += 1;
    }
}

} // verus!

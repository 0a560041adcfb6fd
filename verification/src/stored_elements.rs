//! What is read from data in which the elements stand one behind the other.

use vstd::prelude::*;
use crate::bytes;
use crate::data_read::{self, Number};
use crate::datatype::{DatatypeByteOrder, DatatypeModel};
use crate::error::ErrorModel;

verus! {

// ---- Elements ----

/// Elements one behind the other.
pub open spec fn joined(parts: Seq<Seq<u8>>) -> Seq<u8>
    decreases parts.len(),
{
    if parts.len() == 0 {
        Seq::empty()
    } else {
        joined(parts.drop_last()) + parts.last()
    }
}

/// Whether all elements take `n` bytes.
pub open spec fn have_size(parts: Seq<Seq<u8>>, n: int) -> bool {
    forall|i: int| 0 <= i < parts.len() ==> (#[trigger] parts[i]).len() == n
}

pub proof fn lemma_joined_len(parts: Seq<Seq<u8>>, n: int)
    requires
        have_size(parts, n),
    ensures
        joined(parts).len() == parts.len() * n,
    decreases parts.len(),
{
    if parts.len() > 0 {
        lemma_joined_len(parts.drop_last(), n);
        assert(parts.last().len() == n);
        let k = parts.len() as int;
        assert(k * n == (k - 1) * n + n) by (nonlinear_arith);
    } else {
        assert(0 * n == 0) by (nonlinear_arith);
    }
}

proof fn lemma_joined_element(parts: Seq<Seq<u8>>, n: int, i: int)
    requires
        have_size(parts, n),
        0 <= i < parts.len(),
    ensures
        data_read::element(joined(parts), n, i) == parts[i],
    decreases parts.len(),
{
    let k = parts.len() as int;
    let before = joined(parts.drop_last());
    assert(parts.last().len() == n);
    lemma_joined_len(parts.drop_last(), n);
    assert((k - 1 + 1) * n == (k - 1) * n + n) by (nonlinear_arith);
    if i < k - 1 {
        lemma_joined_element(parts.drop_last(), n, i);
        assert(0 <= i * n && i * n <= (i + 1) * n && (i + 1) * n <= (k - 1) * n)
            by (nonlinear_arith)
            requires
                0 <= i < k - 1,
                0 <= n,
        ;
        assert(data_read::element(before + parts.last(), n, i) =~= data_read::element(
            before,
            n,
            i,
        ));
    } else {
        assert(data_read::element(before + parts.last(), n, i) =~= parts.last());
    }
}

/// Elements that were put one behind the other are counted, and found again one by one.
#[verifier::rlimit(30)]
pub proof fn law_elements_are_found(parts: Seq<Seq<u8>>, n: int)
    requires
        n > 0,
        have_size(parts, n),
    ensures
        data_read::element_count(joined(parts), n) == Ok::<nat, ErrorModel>(parts.len()),
        forall|i: int|
            0 <= i < parts.len() ==> #[trigger] data_read::element(joined(parts), n, i)
                == parts[i],
{
    let k = parts.len() as int;
    lemma_joined_len(parts, n);
    vstd::arithmetic::div_mod::lemma_mod_multiples_basic(k, n);
    vstd::arithmetic::div_mod::lemma_div_multiples_vanish(k, n);
    assert(k * n == n * k) by (nonlinear_arith);
    assert forall|i: int| 0 <= i < parts.len() implies #[trigger] data_read::element(
        joined(parts),
        n,
        i,
    ) == parts[i] by {
        lemma_joined_element(parts, n, i);
    }
}

// ---- Numbers ----

/// The digits of a number in base 256, the last of them first.
pub open spec fn digits(v: int, n: int) -> Seq<u8>
    decreases n,
{
    if n <= 0 {
        Seq::empty()
    } else {
        seq![(v % 256) as u8] + digits(v / 256, n - 1)
    }
}

/// The bytes of a number of `n` bytes in the given order. A negative number stands for the one that
/// is larger by the number of values that `n` bytes have.
pub open spec fn stored(v: int, n: int, order: DatatypeByteOrder) -> Seq<u8> {
    let low_first = digits(
        if v < 0 {
            v + bytes::pow256(n as nat)
        } else {
            v
        },
        n,
    );
    if order == DatatypeByteOrder::BigEndian {
        low_first.reverse()
    } else {
        low_first
    }
}

/// The bytes of numbers one behind the other.
pub open spec fn all_stored(values: Seq<int>, n: int, order: DatatypeByteOrder) -> Seq<u8> {
    joined(Seq::new(values.len(), |i: int| stored(values[i], n, order)))
}

proof fn lemma_digits(v: int, n: int)
    requires
        0 <= v,
        0 <= n,
    ensures
        digits(v, n) == bytes::le_bytes(v as nat, n as nat),
        digits(v, n).len() == n,
    decreases n,
{
    bytes::lemma_le_bytes_len(v as nat, n as nat);
    if n > 0 {
        lemma_digits(v / 256, n - 1);
        assert(digits(v, n) =~= bytes::le_bytes(v as nat, n as nat));
    } else {
        assert(digits(v, n) =~= bytes::le_bytes(v as nat, n as nat));
    }
}

proof fn lemma_half(n: int)
    requires
        1 <= n <= 8,
    ensures
        256 <= bytes::pow256(n as nat) <= 0x1_0000_0000_0000_0000,
{
    reveal_with_fuel(bytes::pow256, 9);
}

proof fn lemma_stored(v: int, n: int, order: DatatypeByteOrder)
    requires
        1 <= n <= 8,
        -(bytes::pow256(n as nat) as int) <= 2 * v,
        v < bytes::pow256(n as nat),
    ensures
        stored(v, n, order).len() == n,
        data_read::low_bytes(stored(v, n, order), order).len() == n,
        v >= 0 ==> data_read::unsigned_value(stored(v, n, order), order) == v,
        2 * v < bytes::pow256(n as nat) ==> data_read::signed_value(stored(v, n, order), order)
            == v,
{
    let p = bytes::pow256(n as nat) as int;
    let u = if v < 0 {
        v + p
    } else {
        v
    };
    lemma_half(n);
    lemma_digits(u, n);
    let low_first = digits(u, n);
    let b = stored(v, n, order);
    assert(data_read::low_bytes(b, order) =~= low_first);
    bytes::lemma_le_round_trip(u as nat, n as nat);
    vstd::arithmetic::div_mod::lemma_small_mod(u as nat, p as nat);
}

/// Whether each of the values has a place among the integers of `n` bytes with a sign.
pub open spec fn fit_signed(values: Seq<int>, n: int) -> bool {
    forall|i: int|
        0 <= i < values.len() ==> -(bytes::pow256(n as nat) as int) <= 2 * #[trigger] values[i]
            && 2 * values[i] < bytes::pow256(n as nat)
}

/// Whether each of the values has a place among the integers of `n` bytes without a sign.
pub open spec fn fit_unsigned(values: Seq<int>, n: int) -> bool {
    forall|i: int|
        0 <= i < values.len() ==> 0 <= #[trigger] values[i] < bytes::pow256(n as nat)
}

proof fn lemma_all_stored(values: Seq<int>, n: int, order: DatatypeByteOrder)
    requires
        1 <= n <= 8,
        fit_signed(values, n) || fit_unsigned(values, n),
    ensures
        data_read::element_count(all_stored(values, n, order), n) == Ok::<nat, ErrorModel>(
            values.len(),
        ),
        forall|i: int|
            0 <= i < values.len() ==> #[trigger] data_read::element(
                all_stored(values, n, order),
                n,
                i,
            ) == stored(values[i], n, order),
{
    let parts = Seq::new(values.len(), |i: int| stored(values[i], n, order));
    lemma_half(n);
    assert forall|i: int| 0 <= i < parts.len() implies (#[trigger] parts[i]).len() == n by {
        assert(fit_signed(values, n) || fit_unsigned(values, n));
        assert(-(bytes::pow256(n as nat) as int) <= 2 * values[i]);
        lemma_stored(values[i], n, order);
    }
    law_elements_are_found(parts, n);
    assert forall|i: int| 0 <= i < values.len() implies #[trigger] data_read::element(
        all_stored(values, n, order),
        n,
        i,
    ) == stored(values[i], n, order) by {
        assert(data_read::element(joined(parts), n, i) == parts[i]);
    }
}

/// The same numbers without the type.
pub open spec fn widened(values: Seq<i64>) -> Seq<int> {
    Seq::new(values.len(), |i: int| values[i] as int)
}

/// Signed integers of one to eight bytes, in either byte order, are read back.
#[verifier::rlimit(30)]
pub proof fn law_signed_integers_are_read_back(
    values: Seq<i64>,
    m: DatatypeModel,
    expected: &'static str,
)
    requires
        data_read::is_numeric(m),
        1 <= m.size() <= 8,
        fit_signed(widened(values), m.size() as int),
    ensures
        data_read::signed_values(
            all_stored(widened(values), m.size() as int, m.order()),
            m,
            expected,
        ) == Ok::<Seq<i64>, ErrorModel>(values),
{
    let wide = widened(values);
    let n = m.size() as int;
    let raw = all_stored(wide, n, m.order());
    lemma_all_stored(wide, n, m.order());
    let read = data_read::signed_values(raw, m, expected)->Ok_0;
    assert forall|i: int| 0 <= i < values.len() implies read[i] == values[i] by {
        assert(wide[i] == values[i]);
        lemma_stored(wide[i], n, m.order());
        assert(data_read::element(raw, n, i) == stored(wide[i], n, m.order()));
    }
    assert(read =~= values);
}

/// Unsigned integers of one to eight bytes, in either byte order, are read back.
#[verifier::rlimit(30)]
pub proof fn law_unsigned_integers_are_read_back(values: Seq<u64>, m: DatatypeModel)
    requires
        data_read::is_numeric(m),
        1 <= m.size() <= 8,
        fit_unsigned(Seq::new(values.len(), |i: int| values[i] as int), m.size() as int),
    ensures
        data_read::unsigned_values(
            all_stored(
                Seq::new(values.len(), |i: int| values[i] as int),
                m.size() as int,
                m.order(),
            ),
            m,
        ) == Ok::<Seq<u64>, ErrorModel>(values),
{
    let wide = Seq::new(values.len(), |i: int| values[i] as int);
    let n = m.size() as int;
    let raw = all_stored(wide, n, m.order());
    lemma_all_stored(wide, n, m.order());
    let read = data_read::unsigned_values(raw, m)->Ok_0;
    assert forall|i: int| 0 <= i < values.len() implies read[i] == values[i] by {
        assert(wide[i] == values[i]);
        lemma_half(n);
        lemma_stored(wide[i], n, m.order());
        assert(data_read::element(raw, n, i) == stored(wide[i], n, m.order()));
    }
    assert(read =~= values);
}

/// Signed integers that fit in 32 bits are read back as such, from elements of any width that has
/// room for them.
#[verifier::rlimit(30)]
pub proof fn law_narrow_integers_are_read_back(values: Seq<i32>, m: DatatypeModel)
    requires
        data_read::is_numeric(m),
        1 <= m.size() <= 8,
        fit_signed(Seq::new(values.len(), |i: int| values[i] as int), m.size() as int),
    ensures
        data_read::narrow_values(
            all_stored(
                Seq::new(values.len(), |i: int| values[i] as int),
                m.size() as int,
                m.order(),
            ),
            m,
        ) == Ok::<Seq<i32>, ErrorModel>(values),
{
    let wide = Seq::new(values.len(), |i: int| values[i] as i64);
    assert(widened(wide) =~= Seq::new(values.len(), |i: int| values[i] as int));
    law_signed_integers_are_read_back(wide, m, "FixedPoint");
    let raw = all_stored(widened(wide), m.size() as int, m.order());
    assert(data_read::narrow_values(raw, m)->Ok_0 =~= values);
}

/// Of an integer that does not fit in 32 bits the low 32 bits are kept: it is read as one that
/// differs from it by a multiple of the number of values that 32 bits have.
#[verifier::rlimit(30)]
pub proof fn law_narrow_integers_keep_the_low_bits(
    raw: Seq<u8>,
    m: DatatypeModel,
    i: int,
)
    requires
        data_read::signed_values(raw, m, "FixedPoint") is Ok,
        0 <= i < data_read::signed_values(raw, m, "FixedPoint")->Ok_0.len(),
    ensures
        data_read::narrow_values(raw, m) is Ok,
        data_read::narrow_values(raw, m)->Ok_0.len() == data_read::signed_values(
            raw,
            m,
            "FixedPoint",
        )->Ok_0.len(),
        (data_read::narrow_values(raw, m)->Ok_0[i] - data_read::signed_values(
            raw,
            m,
            "FixedPoint",
        )->Ok_0[i]) % 0x1_0000_0000 == 0,
{
    let v: i64 = data_read::signed_values(raw, m, "FixedPoint")->Ok_0[i];
    assert((v as i32 - v) % 0x1_0000_0000 == 0) by (bit_vector);
}

/// The number that an element of the given type stands for.
pub open spec fn number_stored(v: int, m: DatatypeModel) -> Number {
    match m {
        DatatypeModel::FloatingPoint { size, .. } => if size == 4 {
            Number::Single(v as u32)
        } else {
            Number::Double(v as u64)
        },
        DatatypeModel::FixedPoint { signed: true, .. } => Number::Signed(v as i64),
        _ => Number::Unsigned(v as u64),
    }
}

/// Numbers for conversion to floating point are read back, in either byte order: integers with
/// their sign, and floating-point numbers with the same bits.
#[verifier::rlimit(30)]
pub proof fn law_numbers_are_read_back(
    values: Seq<int>,
    m: DatatypeModel,
    expected: &'static str,
    unknown: ErrorModel,
)
    requires
        data_read::is_known(m),
        1 <= m.size() <= 8,
        m matches DatatypeModel::FixedPoint { signed: true, .. } ==> fit_signed(
            values,
            m.size() as int,
        ),
        !(m matches DatatypeModel::FixedPoint { signed: true, .. }) ==> fit_unsigned(
            values,
            m.size() as int,
        ),
    ensures
        data_read::numbers(all_stored(values, m.size() as int, m.order()), m, expected, unknown)
            == Ok::<Seq<Number>, ErrorModel>(
            Seq::new(values.len(), |i: int| number_stored(values[i], m)),
        ),
{
    let n = m.size() as int;
    let raw = all_stored(values, n, m.order());
    lemma_all_stored(values, n, m.order());
    let read = data_read::numbers(raw, m, expected, unknown)->Ok_0;
    let numbers = Seq::new(values.len(), |i: int| number_stored(values[i], m));
    assert forall|i: int| 0 <= i < values.len() implies read[i] == numbers[i] by {
        lemma_half(n);
        assert(-(bytes::pow256(n as nat) as int) <= 2 * values[i]);
        lemma_stored(values[i], n, m.order());
        assert(data_read::element(raw, n, i) == stored(values[i], n, m.order()));
    }
    assert(read =~= numbers);
}

/// The same data with the bytes of each element in the opposite order.
pub open spec fn swapped(raw: Seq<u8>, n: int) -> Seq<u8> {
    Seq::new(raw.len(), |k: int| raw[k / n * n + (n - 1 - k % n)])
}

proof fn lemma_swapped(raw: Seq<u8>, n: int, i: int)
    requires
        n > 0,
        raw.len() as int % n == 0,
        0 <= i < raw.len() as int / n,
    ensures
        data_read::element(swapped(raw, n), n, i) == data_read::element(raw, n, i).reverse(),
        data_read::element(raw, n, i).len() == n,
{
    let k = raw.len() as int / n;
    vstd::arithmetic::div_mod::lemma_fundamental_div_mod(raw.len() as int, n);
    assert(0 <= i * n && (i + 1) * n == i * n + n && (i + 1) * n <= n * k) by (nonlinear_arith)
        requires
            0 <= i,
            i + 1 <= k,
            n > 0,
    ;
    let left = data_read::element(swapped(raw, n), n, i);
    let right = data_read::element(raw, n, i).reverse();
    assert forall|j: int| 0 <= j < n implies left[j] == right[j] by {
        vstd::arithmetic::div_mod::lemma_fundamental_div_mod_converse(i * n + j, n, i, j);
    }
    assert(left =~= right);
}

/// Reversing the bytes of each element and naming the opposite byte order changes nothing in what
/// is read.
#[verifier::rlimit(30)]
pub proof fn law_byte_order_is_undone(
    raw: Seq<u8>,
    m: DatatypeModel,
    opposite: DatatypeModel,
    expected: &'static str,
)
    requires
        data_read::is_numeric(m),
        data_read::is_numeric(opposite),
        m.size() == opposite.size() <= 8,
        m.order() == DatatypeByteOrder::BigEndian,
        opposite.order() != DatatypeByteOrder::BigEndian,
    ensures
        data_read::signed_values(swapped(raw, m.size() as int), m, expected)
            == data_read::signed_values(raw, opposite, expected),
        data_read::signed_values(swapped(raw, m.size() as int), opposite, expected)
            == data_read::signed_values(raw, m, expected),
        data_read::unsigned_values(swapped(raw, m.size() as int), m)
            == data_read::unsigned_values(raw, opposite),
        data_read::unsigned_values(swapped(raw, m.size() as int), opposite)
            == data_read::unsigned_values(raw, m),
        data_read::narrow_values(swapped(raw, m.size() as int), m) == data_read::narrow_values(
            raw,
            opposite,
        ),
        data_read::narrow_values(swapped(raw, m.size() as int), opposite)
            == data_read::narrow_values(raw, m),
{
    let n = m.size() as int;
    let big = DatatypeByteOrder::BigEndian;
    let little = opposite.order();
    let other = swapped(raw, n);
    if n > 0 && raw.len() as int % n == 0 {
        assert forall|i: int| 0 <= i < raw.len() as int / n implies data_read::low_bytes(
            #[trigger] data_read::element(other, n, i),
            big,
        ) == data_read::low_bytes(data_read::element(raw, n, i), little)
            && data_read::low_bytes(data_read::element(other, n, i), little)
            == data_read::low_bytes(data_read::element(raw, n, i), big) by {
            lemma_swapped(raw, n, i);
            let b = data_read::element(raw, n, i);
            assert(data_read::low_bytes(b.reverse(), big) =~= data_read::low_bytes(b, little));
            assert(data_read::low_bytes(b.reverse(), little) =~= data_read::low_bytes(b, big));
        }
        assert(data_read::unsigned_values(other, m)->Ok_0 =~= data_read::unsigned_values(
            raw,
            opposite,
        )->Ok_0);
        assert(data_read::unsigned_values(other, opposite)->Ok_0 =~= data_read::unsigned_values(
            raw,
            m,
        )->Ok_0);
        assert forall|e: &'static str|
            #[trigger] data_read::signed_values(other, m, e) == data_read::signed_values(
                raw,
                opposite,
                e,
            ) && data_read::signed_values(other, opposite, e) == data_read::signed_values(
                raw,
                m,
                e,
            ) by {
            assert(data_read::signed_values(other, m, e)->Ok_0 =~= data_read::signed_values(
                raw,
                opposite,
                e,
            )->Ok_0);
            assert(data_read::signed_values(other, opposite, e)->Ok_0
                =~= data_read::signed_values(raw, m, e)->Ok_0);
        }
        assert(data_read::signed_values(other, m, "FixedPoint") == data_read::signed_values(
            raw,
            opposite,
            "FixedPoint",
        ));
    }
}

} // verus!

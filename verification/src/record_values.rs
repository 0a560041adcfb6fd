//! Records, the datatypes of their fields, and numbers as text.

use vstd::prelude::*;
use vstd::arithmetic::power2::pow2;
use crate::bytes;
use crate::data_read;
use crate::datatype::{self, DatatypeByteOrder, DatatypeModel};
use crate::error::ErrorModel;
use crate::h5type::{self, FieldModel, FieldType, Scalar};
use crate::lane_partition::LaneStats;
use crate::text;

verus! {

// ---- Types ----

/// A floating-point type takes all bits of its bytes: the mantissa, the exponent above it, and the
/// sign on top. The bias is half the range of the exponent.
pub proof fn law_parts_of_floating_point_types(order: DatatypeByteOrder, double: bool)
    ensures
        ({
            let t = if double {
                datatype::double_type(order)
            } else {
                datatype::single_type(order)
            };
            &&& t matches DatatypeModel::FloatingPoint {
                size,
                byte_order,
                bit_offset,
                bit_precision,
                exponent_location,
                exponent_size,
                mantissa_location,
                mantissa_size,
                exponent_bias,
            } && {
                &&& size == if double {
                    8u32
                } else {
                    4u32
                }
                &&& byte_order == order
                &&& bit_offset == 0
                &&& bit_precision == 8 * size
                &&& mantissa_location == 0
                &&& exponent_location == mantissa_size
                &&& mantissa_size + exponent_size + 1 == 8 * size
                &&& exponent_bias == pow2((exponent_size - 1) as nat) - 1
                &&& exponent_size == if double {
                    11int
                } else {
                    8
                }
            }
        }),
{
    vstd::arithmetic::power2::lemma2_to64();
}

/// An integer type takes all bits of its bytes.
pub proof fn law_bits_of_integer_types(size: u32, signed: bool, order: DatatypeByteOrder)
    requires
        size <= 8,
    ensures
        datatype::integer_type(size, signed, order) matches DatatypeModel::FixedPoint {
            size: n,
            byte_order,
            signed: s,
            bit_offset,
            bit_precision,
        } && n == size && byte_order == order && s == signed && bit_offset == 0 && bit_precision
            == 8 * size,
{
}

// ---- Fields ----

/// Whether the values of a type are integers without a sign.
pub open spec fn is_unsigned(s: Scalar) -> bool {
    s is U8 || s is U16 || s is U32 || s is U64 || s is Bool
}

/// A value without a sign takes as many bytes in a record as its datatype says, and is read by its
/// datatype from the bytes that the record has for it.
pub proof fn law_datatype_reads_the_field(s: Scalar, word: u64)
    requires
        is_unsigned(s),
        s.admits(word),
    ensures
        s.model().size() == s.width(),
        h5type::encoded(seq![s], seq![word], 1).len() == s.width(),
        data_read::unsigned_values(h5type::encoded(seq![s], seq![word], 1), s.model()) == Ok::<
            Seq<u64>,
            ErrorModel,
        >(seq![word]),
{
    let w = s.width();
    let raw = h5type::encoded(seq![s], seq![word], 1);
    reveal_with_fuel(h5type::encoded, 2);
    assert(raw =~= bytes::le_bytes(word as nat, w));
    bytes::lemma_pow256_values();
    bytes::lemma_le_bytes_len(word as nat, w);
    bytes::lemma_le_round_trip(word as nat, w);
    vstd::arithmetic::div_mod::lemma_small_mod(word as nat, bytes::pow256(w));
    assert(data_read::element(raw, w as int, 0) =~= raw);
    let read = data_read::unsigned_values(raw, s.model())->Ok_0;
    assert(raw.len() as int / w as int == 1);
    assert(read =~= seq![word]);
}

/// The sizes of the types, and which of them have a sign.
pub proof fn law_sizes_of_scalars(s: Scalar)
    ensures
        s.model().size() == s.width(),
        s is I8 || s is U8 || s is Bool <==> s.width() == 1,
        s is I16 || s is U16 <==> s.width() == 2,
        s is I32 || s is U32 || s is F32 <==> s.width() == 4,
        s is I64 || s is U64 || s is F64 <==> s.width() == 8,
        s is F32 || s is F64 <==> s.model() is FloatingPoint,
        s.model() matches DatatypeModel::FixedPoint { signed, .. } ==> signed == !is_unsigned(s),
        s.model().order() == DatatypeByteOrder::LittleEndian,
{
}

/// The types by their names.
pub proof fn law_scalars_by_name()
    ensures
        h5type::scalar_named("f64"@) == Some(Scalar::F64),
        h5type::scalar_named("f32"@) == Some(Scalar::F32),
        h5type::scalar_named("i8"@) == Some(Scalar::I8),
        h5type::scalar_named("i16"@) == Some(Scalar::I16),
        h5type::scalar_named("i32"@) == Some(Scalar::I32),
        h5type::scalar_named("i64"@) == Some(Scalar::I64),
        h5type::scalar_named("u8"@) == Some(Scalar::U8),
        h5type::scalar_named("u16"@) == Some(Scalar::U16),
        h5type::scalar_named("u32"@) == Some(Scalar::U32),
        h5type::scalar_named("u64"@) == Some(Scalar::U64),
        h5type::scalar_named("bool"@) == Some(Scalar::Bool),
{
    reveal_strlit("f64");
    reveal_strlit("f32");
    reveal_strlit("i8");
    reveal_strlit("i16");
    reveal_strlit("i32");
    reveal_strlit("i64");
    reveal_strlit("u8");
    reveal_strlit("u16");
    reveal_strlit("u32");
    reveal_strlit("u64");
    reveal_strlit("bool");
    assert("f64"@ =~= seq!['f', '6', '4']);
    assert("f32"@ =~= seq!['f', '3', '2']);
    assert("i8"@ =~= seq!['i', '8']);
    assert("i16"@ =~= seq!['i', '1', '6']);
    assert("i32"@ =~= seq!['i', '3', '2']);
    assert("i64"@ =~= seq!['i', '6', '4']);
    assert("u8"@ =~= seq!['u', '8']);
    assert("u16"@ =~= seq!['u', '1', '6']);
    assert("u32"@ =~= seq!['u', '3', '2']);
    assert("u64"@ =~= seq!['u', '6', '4']);
    assert("bool"@ =~= seq!['b', 'o', 'o', 'l']);
    lemma_three('f', '6', '4', 'f', '3', '2');
    lemma_three('i', '1', '6', 'i', '3', '2');
    lemma_three('i', '1', '6', 'i', '6', '4');
    lemma_three('i', '3', '2', 'i', '6', '4');
    lemma_three('u', '1', '6', 'u', '3', '2');
    lemma_three('u', '1', '6', 'u', '6', '4');
    lemma_three('u', '3', '2', 'u', '6', '4');
    assert(seq!['i', '8'][0] != seq!['u', '8'][0]);
    assert forall|a: char, b: char, c: char, e: char, f: char, g: char| a != e implies
        #[trigger] seq![a, b, c] != #[trigger] seq![e, f, g] by {
        assert(seq![a, b, c][0] != seq![e, f, g][0]);
    }
    assert(seq!['f', '6', '4'].len() == 3 && seq!['f', '3', '2'].len() == 3);
    assert(seq!['i', '8'].len() == 2 && seq!['u', '8'].len() == 2);
    assert(seq!['b', 'o', 'o', 'l'].len() == 4);
}

proof fn lemma_three(a: char, b: char, c: char, e: char, f: char, g: char)
    requires
        a != e || b != f || c != g,
    ensures
        seq![a, b, c] != seq![e, f, g],
{
    let s = seq![a, b, c];
    let t = seq![e, f, g];
    assert(s[0] == a && s[1] == b && s[2] == c);
    assert(t[0] == e && t[1] == f && t[2] == g);
}

/// The fields of a record stand one behind the other: the first one at the front, each of the others
/// where the one before it ends, and the record ends where the last one does. Each keeps its name.
pub proof fn law_record_is_dense(fields: Seq<FieldModel>)
    requires
        h5type::record_width(fields) <= u32::MAX,
    ensures
        h5type::record_type(fields) matches DatatypeModel::Compound { size, members } && {
            &&& members.len() == fields.len()
            &&& members.len() == 0 ==> size == 0
            &&& members.len() > 0 ==> members[0].byte_offset == 0
            &&& members.len() > 0 ==> size == members[members.len() - 1].byte_offset
                + fields[members.len() - 1].kind.width()
            &&& forall|i: int|
                0 <= i < members.len() ==> (#[trigger] members[i]).name == fields[i].name
            &&& forall|i: int|
                0 < i < members.len() ==> (#[trigger] members[i]).byte_offset == members[i
                    - 1].byte_offset + fields[i - 1].kind.width()
        },
{
    let n = fields.len() as int;
    assert forall|i: int| 0 <= i <= n implies #[trigger] h5type::offset_of(fields, i)
        <= u32::MAX by {
        lemma_offsets(fields, i, n);
    }
}

proof fn lemma_offsets(fields: Seq<FieldModel>, k: int, n: int)
    requires
        0 <= k <= n,
    ensures
        h5type::offset_of(fields, k) <= h5type::offset_of(fields, n),
    decreases n - k,
{
    if k < n {
        lemma_offsets(fields, k, n - 1);
    }
}

/// A field of one value has the datatype of the value and its size, and one of several values an
/// array of that datatype and as many times its size.
pub proof fn law_types_of_fields(s: Scalar, n: usize)
    requires
        n * s.width() <= u32::MAX,
    ensures
        FieldType::Single(s).width() == s.width(),
        FieldType::Single(s).model() == s.model(),
        FieldType::Array(s, n).width() == n * s.width(),
        FieldType::Array(s, n).model() matches DatatypeModel::Array { base_type, dimensions }
            && *base_type == s.model() && dimensions.len() == 1 && dimensions[0] == n,
{
    let w = s.width() as int;
    assert(n <= n * w) by (nonlinear_arith)
        requires
            w >= 1,
            n >= 0,
    ;
}

// ---- Text ----

/// The number that a digit stands for.
pub open spec fn digit_value(c: char) -> int {
    if '0' <= c <= '9' {
        c as int - '0' as int
    } else {
        c as int - 'a' as int + 10
    }
}

/// The number that digits to the given base stand for.
pub open spec fn digits_value(s: Seq<char>, base: int) -> int
    decreases s.len(),
{
    if s.len() == 0 {
        0
    } else {
        digits_value(s.drop_last(), base) * base + digit_value(s.last())
    }
}

proof fn lemma_digit(n: nat)
    requires
        n < 16,
    ensures
        digit_value(text::hex_digit(n)) == n,
        n < 10 ==> digit_value(text::digit(n)) == n,
        n < 10 ==> '0' <= text::digit(n) <= '9',
        0 < n < 10 ==> text::digit(n) != '0',
{
}

/// The decimal digits of a number stand for the number, and none but that of zero starts with a
/// zero.
pub proof fn law_decimal_digits_stand_for_the_number(n: nat)
    ensures
        digits_value(text::decimal(n), 10) == n,
        text::decimal(n).len() > 0,
        n > 0 ==> text::decimal(n)[0] != '0',
        forall|i: int| 0 <= i < text::decimal(n).len() ==> '0' <= #[trigger] text::decimal(n)[i]
            <= '9',
    decreases n,
{
    let s = text::decimal(n);
    if n < 10 {
        lemma_digit(n);
        assert(s.drop_last() =~= Seq::empty());
        assert(digits_value(s.drop_last(), 10) == 0);
    } else {
        law_decimal_digits_stand_for_the_number(n / 10);
        lemma_digit(n % 10);
        assert(s.drop_last() =~= text::decimal(n / 10));
    }
}

/// Two hexadecimal digits stand for each byte, the higher one first.
pub proof fn law_hexadecimal_digits_stand_for_the_bytes(b: Seq<u8>, n: int, i: int)
    requires
        0 <= i < n <= b.len(),
    ensures
        text::hex(b, n).len() == 2 * n,
        16 * digit_value(text::hex(b, n)[2 * i]) + digit_value(text::hex(b, n)[2 * i + 1]) == b[i],
        0 <= digit_value(text::hex(b, n)[2 * i + 1]) < 16,
    decreases n,
{
    lemma_hex_len(b, n - 1);
    lemma_digit((b[n - 1] / 16) as nat);
    lemma_digit((b[n - 1] % 16) as nat);
    if i < n - 1 {
        law_hexadecimal_digits_stand_for_the_bytes(b, n - 1, i);
    }
}

proof fn lemma_hex_len(b: Seq<u8>, n: int)
    requires
        0 <= n <= b.len(),
    ensures
        text::hex(b, n).len() == 2 * n,
    decreases n,
{
    if n > 0 {
        lemma_hex_len(b, n - 1);
    }
}

// ---- Counts ----

/// What a lane has done grows by one chunk and its bytes, or up to the largest number, and the order
/// of the chunks does not matter.
pub proof fn law_lane_counts_its_chunks(s: LaneStats, a: int, b: int, c: int, e: int)
    requires
        s.chunks_processed + 2 <= usize::MAX,
        0 <= a,
        0 <= b,
        0 <= c,
        0 <= e,
    ensures
        s.with_chunk(a, b).chunks_processed == s.chunks_processed + 1,
        s.compressed_bytes + a <= u64::MAX ==> s.with_chunk(a, b).compressed_bytes
            == s.compressed_bytes + a,
        s.decompressed_bytes + b <= u64::MAX ==> s.with_chunk(a, b).decompressed_bytes
            == s.decompressed_bytes + b,
        s.compressed_bytes + a > u64::MAX ==> s.with_chunk(a, b).compressed_bytes == u64::MAX,
        s.decompressed_bytes + b > u64::MAX ==> s.with_chunk(a, b).decompressed_bytes == u64::MAX,
        s.with_chunk(a, b).with_chunk(c, e) == s.with_chunk(c, e).with_chunk(a, b),
{
}

} // verus!

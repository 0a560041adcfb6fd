//! Values that are written are read back.

use vstd::prelude::*;
use vstd::utf8::*;
use crate::attribute::AttributeModel;
use crate::data_read::{self, Number};
use crate::dataspace::DataspaceModel;
use crate::datatype::{DatatypeByteOrder, DatatypeModel, StringPadding};
use crate::error::ErrorModel;
use crate::type_builders::{self, AttrModel};

verus! {

// ---- Numbers ----

/// Where each number stands.
proof fn lemma_words(values: Seq<u64>, i: int, n: int)
    requires
        0 <= i < n,
    ensures
        type_builders::words_bytes(values, n).len() == 8 * n,
        data_read::element(type_builders::words_bytes(values, n), 8, i) == crate::bytes::le_bytes(
            values[i] as nat,
            8,
        ),
    decreases n,
{
    let before = type_builders::words_bytes(values, n - 1);
    let last = crate::bytes::le_bytes(values[n - 1] as nat, 8);
    lemma_words_len(values, n - 1);
    crate::bytes::lemma_le_bytes_len(values[n - 1] as nat, 8);
    if i < n - 1 {
        lemma_words(values, i, n - 1);
        assert(data_read::element(before + last, 8, i) =~= data_read::element(before, 8, i));
    } else {
        assert(data_read::element(before + last, 8, i) =~= last);
    }
}

proof fn lemma_words_len(values: Seq<u64>, n: int)
    requires
        0 <= n,
    ensures
        type_builders::words_bytes(values, n).len() == 8 * n,
    decreases n,
{
    if n > 0 {
        lemma_words_len(values, n - 1);
        crate::bytes::lemma_le_bytes_len(values[n - 1] as nat, 8);
    }
}

/// A number that is written in eight bytes is read back.
proof fn lemma_word(v: u64)
    ensures
        data_read::unsigned_value(
            crate::bytes::le_bytes(v as nat, 8),
            DatatypeByteOrder::LittleEndian,
        ) == v,
        data_read::low_bytes(
            crate::bytes::le_bytes(v as nat, 8),
            DatatypeByteOrder::LittleEndian,
        ).len() == 8,
{
    let b = crate::bytes::le_bytes(v as nat, 8);
    crate::bytes::lemma_le_bytes_len(v as nat, 8);
    assert(b.subrange(0, 8) =~= b);
    crate::bytes::lemma_le_round_trip(v as nat, 8);
    crate::bytes::lemma_pow256_values();
}

/// A signed number that is written in eight bytes is read back.
proof fn lemma_signed_word(v: i64)
    ensures
        data_read::signed_value(
            crate::bytes::le_bytes(v as u64 as nat, 8),
            DatatypeByteOrder::LittleEndian,
        ) == v,
{
    lemma_word(v as u64);
    crate::bytes::lemma_pow256_values();
    assert(v >= 0 ==> v as u64 == v) by (bit_vector);
    assert(v < 0 ==> v as u64 == v + 0x1_0000_0000_0000_0000) by (bit_vector);
}

/// Numbers of 64 bits that are written are read back: as unsigned integers, as signed ones, and as
/// floating-point numbers with the same bits.
pub proof fn law_words_are_read_back(values: Seq<u64>, signed: Seq<i64>)
    ensures
        data_read::unsigned_values(
            type_builders::words_bytes(values, values.len() as int),
            crate::datatype::integer_type(8, false, DatatypeByteOrder::LittleEndian),
        ) == Ok::<Seq<u64>, ErrorModel>(values),
        forall|expected: &'static str|
            #[trigger] data_read::signed_values(
                type_builders::words_bytes(
                    type_builders::complemented(signed),
                    signed.len() as int,
                ),
                crate::datatype::integer_type(8, true, DatatypeByteOrder::LittleEndian),
                expected,
            ) == Ok::<Seq<i64>, ErrorModel>(signed),
        forall|expected: &'static str, unknown: ErrorModel|
            #[trigger] data_read::numbers(
                type_builders::words_bytes(values, values.len() as int),
                crate::datatype::double_type(DatatypeByteOrder::LittleEndian),
                expected,
                unknown,
            ) == Ok::<Seq<Number>, ErrorModel>(
                Seq::new(values.len(), |i: int| Number::Double(values[i])),
            ),
{
    let le = DatatypeByteOrder::LittleEndian;
    let raw = type_builders::words_bytes(values, values.len() as int);
    lemma_words_len(values, values.len() as int);
    let unsigned = crate::datatype::integer_type(8, false, le);
    let read = data_read::unsigned_values(raw, unsigned)->Ok_0;
    assert forall|i: int| 0 <= i < values.len() implies read[i] == values[i] by {
        lemma_words(values, i, values.len() as int);
        lemma_word(values[i]);
    }
    assert(read =~= values);
    let double = crate::datatype::double_type(le);
    let numbers = Seq::new(values.len(), |i: int| Number::Double(values[i]));
    assert forall|expected: &'static str, unknown: ErrorModel|
        #[trigger] data_read::numbers(raw, double, expected, unknown) == Ok::<
            Seq<Number>,
            ErrorModel,
        >(numbers) by {
        let got = data_read::numbers(raw, double, expected, unknown)->Ok_0;
        assert forall|i: int| 0 <= i < values.len() implies got[i] == numbers[i] by {
            lemma_words(values, i, values.len() as int);
            lemma_word(values[i]);
        }
        assert(got =~= numbers);
    }
    let words = type_builders::complemented(signed);
    let bytes = type_builders::words_bytes(words, signed.len() as int);
    let integer = crate::datatype::integer_type(8, true, le);
    lemma_words_len(words, signed.len() as int);
    assert forall|expected: &'static str|
        #[trigger] data_read::signed_values(bytes, integer, expected) == Ok::<
            Seq<i64>,
            ErrorModel,
        >(signed) by {
        let got = data_read::signed_values(bytes, integer, expected)->Ok_0;
        assert forall|i: int| 0 <= i < signed.len() implies got[i] == signed[i] by {
            lemma_words(words, i, signed.len() as int);
            lemma_signed_word(signed[i]);
        }
        assert(got =~= signed);
    }
}

/// Where each number of 32 bits stands.
proof fn lemma_half_words(values: Seq<u32>, i: int, n: int)
    requires
        0 <= i < n,
    ensures
        data_read::element(type_builders::half_words_bytes(values, n), 4, i)
            == crate::bytes::le_bytes(values[i] as nat, 4),
    decreases n,
{
    let before = type_builders::half_words_bytes(values, n - 1);
    let last = crate::bytes::le_bytes(values[n - 1] as nat, 4);
    lemma_half_words_len(values, n - 1);
    crate::bytes::lemma_le_bytes_len(values[n - 1] as nat, 4);
    if i < n - 1 {
        lemma_half_words(values, i, n - 1);
        lemma_half_words_len(values, n - 1);
        assert(data_read::element(before + last, 4, i) =~= data_read::element(before, 4, i));
    } else {
        assert(data_read::element(before + last, 4, i) =~= last);
    }
}

proof fn lemma_half_words_len(values: Seq<u32>, n: int)
    requires
        0 <= n,
    ensures
        type_builders::half_words_bytes(values, n).len() == 4 * n,
    decreases n,
{
    if n > 0 {
        lemma_half_words_len(values, n - 1);
        crate::bytes::lemma_le_bytes_len(values[n - 1] as nat, 4);
    }
}

/// A number that is written in four bytes is read back.
proof fn lemma_half_word(v: u32)
    ensures
        data_read::unsigned_value(
            crate::bytes::le_bytes(v as nat, 4),
            DatatypeByteOrder::LittleEndian,
        ) == v,
        data_read::low_bytes(
            crate::bytes::le_bytes(v as nat, 4),
            DatatypeByteOrder::LittleEndian,
        ).len() == 4,
{
    let b = crate::bytes::le_bytes(v as nat, 4);
    crate::bytes::lemma_le_bytes_len(v as nat, 4);
    assert(b.subrange(0, 4) =~= b);
    crate::bytes::lemma_le_round_trip(v as nat, 4);
    crate::bytes::lemma_pow256_values();
}

/// Signed integers and floating-point numbers of 32 bits that are written are read back.
pub proof fn law_half_words_are_read_back(values: Seq<u32>, signed: Seq<i32>)
    ensures
        forall|expected: &'static str|
            #[trigger] data_read::signed_values(
                type_builders::half_words_bytes(
                    type_builders::complemented32(signed),
                    signed.len() as int,
                ),
                crate::datatype::integer_type(4, true, DatatypeByteOrder::LittleEndian),
                expected,
            ) == Ok::<Seq<i64>, ErrorModel>(Seq::new(signed.len(), |i: int| signed[i] as i64)),
        forall|expected: &'static str, unknown: ErrorModel|
            #[trigger] data_read::numbers(
                type_builders::half_words_bytes(values, values.len() as int),
                crate::datatype::single_type(DatatypeByteOrder::LittleEndian),
                expected,
                unknown,
            ) == Ok::<Seq<Number>, ErrorModel>(
                Seq::new(values.len(), |i: int| Number::Single(values[i])),
            ),
{
    let le = DatatypeByteOrder::LittleEndian;
    let raw = type_builders::half_words_bytes(values, values.len() as int);
    lemma_half_words_len(values, values.len() as int);
    let single = crate::datatype::single_type(le);
    let numbers = Seq::new(values.len(), |i: int| Number::Single(values[i]));
    assert forall|expected: &'static str, unknown: ErrorModel|
        #[trigger] data_read::numbers(raw, single, expected, unknown) == Ok::<
            Seq<Number>,
            ErrorModel,
        >(numbers) by {
        let got = data_read::numbers(raw, single, expected, unknown)->Ok_0;
        assert forall|i: int| 0 <= i < values.len() implies got[i] == numbers[i] by {
            lemma_half_words(values, i, values.len() as int);
            lemma_half_word(values[i]);
        }
        assert(got =~= numbers);
    }
    let words = type_builders::complemented32(signed);
    let bytes = type_builders::half_words_bytes(words, signed.len() as int);
    let integer = crate::datatype::integer_type(4, true, le);
    let wide = Seq::new(signed.len(), |i: int| signed[i] as i64);
    lemma_half_words_len(words, signed.len() as int);
    assert forall|expected: &'static str|
        #[trigger] data_read::signed_values(bytes, integer, expected) == Ok::<
            Seq<i64>,
            ErrorModel,
        >(wide) by {
        let got = data_read::signed_values(bytes, integer, expected)->Ok_0;
        assert forall|i: int| 0 <= i < signed.len() implies got[i] == wide[i] by {
            let v = signed[i];
            lemma_half_words(words, i, signed.len() as int);
            lemma_half_word(v as u32);
            crate::bytes::lemma_pow256_values();
            assert(v >= 0 ==> v as u32 == v) by (bit_vector);
            assert(v < 0 ==> v as u32 == v + 0x1_0000_0000) by (bit_vector);
        }
        assert(got =~= wide);
    }
}

// ---- Texts ----

/// Whether a text does not end with a zero character, which padding could not be told from.
pub open spec fn is_paddable(text: Seq<char>) -> bool {
    text.len() > 0 ==> text.last() != '\0'
}

/// Padding is trimmed.
proof fn lemma_trimmed(b: Seq<u8>, len: int, n: int)
    requires
        0 <= len <= n <= b.len(),
        len > 0 ==> b[len - 1] != 0,
        forall|i: int| len <= i < n ==> b[i] == 0,
    ensures
        data_read::trimmed(b, 0, n) == len,
    decreases n,
{
    if n > len {
        lemma_trimmed(b, len, n - 1);
    }
}

/// A text that is padded with zeros is read back.
proof fn lemma_padded_text(text: Seq<char>, width: nat)
    requires
        is_paddable(text),
        encode_utf8(text).len() <= width,
    ensures
        data_read::string_of(
            encode_utf8(text) + Seq::new((width - encode_utf8(text).len()) as nat, |i: int| 0u8),
            StringPadding::NullPad,
        ) == text,
{
    let b = encode_utf8(text);
    let padded = b + Seq::new((width - b.len()) as nat, |i: int| 0u8);
    if text.len() > 0 {
        crate::text::lemma_last_byte(text);
        assert(padded[b.len() - 1] == b.last());
    } else {
        assert(b =~= Seq::<u8>::empty());
    }
    lemma_trimmed(padded, b.len() as int, padded.len() as int);
    assert(padded.subrange(0, b.len() as int) =~= b);
    crate::text::lemma_text_round_trip(text);
}

proof fn lemma_texts_len(texts: Seq<Seq<char>>, width: nat, n: int)
    requires
        0 <= n,
        forall|i: int| 0 <= i < n ==> encode_utf8(#[trigger] texts[i]).len() <= width,
    ensures
        type_builders::texts_bytes(texts, width, n).len() == n * width,
    decreases n,
{
    if n > 0 {
        lemma_texts_len(texts, width, n - 1);
        assert(encode_utf8(texts[n - 1]).len() <= width);
        assert(n * width == (n - 1) * width + width) by (nonlinear_arith);
    } else {
        assert(0 * width == 0) by (nonlinear_arith);
    }
}

/// Where each text stands.
proof fn lemma_texts(texts: Seq<Seq<char>>, width: nat, i: int, n: int)
    requires
        0 <= i < n,
        forall|k: int| 0 <= k < n ==> encode_utf8(#[trigger] texts[k]).len() <= width,
    ensures
        data_read::element(type_builders::texts_bytes(texts, width, n), width as int, i)
            == encode_utf8(texts[i]) + Seq::new(
            (width - encode_utf8(texts[i]).len()) as nat,
            |k: int| 0u8,
        ),
    decreases n,
{
    let before = type_builders::texts_bytes(texts, width, n - 1);
    let text = encode_utf8(texts[n - 1]);
    assert(text.len() <= width);
    let last = text + Seq::new((width - text.len()) as nat, |k: int| 0u8);
    let w = width as int;
    lemma_texts_len(texts, width, n - 1);
    assert((n - 1 + 1) * w == (n - 1) * w + w) by (nonlinear_arith);
    if i < n - 1 {
        lemma_texts(texts, width, i, n - 1);
        assert(0 <= i * w && (i + 1) * w <= (n - 1) * w && i * w <= (i + 1) * w)
            by (nonlinear_arith)
            requires
                0 <= i,
                i + 1 <= n - 1,
                w >= 0,
        ;
        assert(data_read::element(before + last, w, i) =~= data_read::element(before, w, i));
    } else {
        assert(data_read::element(before + last, w, i) =~= last);
    }
}

proof fn lemma_widths(texts: Seq<Seq<char>>, n: int)
    requires
        0 <= n <= texts.len(),
    ensures
        forall|k: int|
            0 <= k < n ==> encode_utf8(#[trigger] texts[k]).len() <= type_builders::longest(
                texts,
                n,
            ),
    decreases n,
{
    if n > 0 {
        lemma_widths(texts, n - 1);
    }
}

/// Texts that are written in fields of the same width are read back. They must not all be empty:
/// where there are texts, but no bytes, none is read.
pub proof fn law_texts_are_read_back(texts: Seq<Seq<char>>)
    requires
        forall|i: int| 0 <= i < texts.len() ==> is_paddable(#[trigger] texts[i]),
        0 < type_builders::longest(texts, texts.len() as int) <= u32::MAX || texts.len() == 0,
    ensures
        ({
            let width = type_builders::longest(texts, texts.len() as int);
            data_read::strings_of(
                type_builders::texts_bytes(texts, width, texts.len() as int),
                type_builders::text_type(width as u32),
            ) == Ok::<Seq<Seq<char>>, ErrorModel>(texts)
        }),
{
    let n = texts.len() as int;
    let width = type_builders::longest(texts, n);
    let raw = type_builders::texts_bytes(texts, width, n);
    let got = data_read::strings_of(raw, type_builders::text_type(width as u32));
    if n == 0 {
        assert(got->Ok_0 =~= texts);
    } else {
        lemma_widths(texts, n);
        lemma_texts_len(texts, width, n);
        vstd::arithmetic::div_mod::lemma_mod_multiples_basic(n, width as int);
        vstd::arithmetic::div_mod::lemma_div_multiples_vanish(n, width as int);
        assert(n * width == (width as int) * n) by (nonlinear_arith);
        assert forall|i: int| 0 <= i < n implies got->Ok_0[i] == texts[i] by {
            assert(is_paddable(texts[i]));
            lemma_texts(texts, width, i, n);
            lemma_padded_text(texts[i], width);
        }
        assert(got->Ok_0 =~= texts);
    }
}

// ---- Attributes ----

/// Whether an attribute value has room in a message: the sizes fit in their fields, and no text
/// ends with a zero character.
pub open spec fn is_storable(value: AttrModel) -> bool {
    match value {
        AttrModel::F64Array(a) => a.len() <= u64::MAX,
        AttrModel::I64Array(a) => a.len() <= u64::MAX,
        AttrModel::String(s) => encode_utf8(s).len() <= u32::MAX && is_paddable(s),
        AttrModel::StringArray(a) => {
            &&& a.len() <= u64::MAX
            &&& type_builders::longest(a, a.len() as int) <= u32::MAX
            &&& forall|i: int| 0 <= i < a.len() ==> is_paddable(#[trigger] a[i])
        },
        _ => true,
    }
}

/// The value of an attribute is what it was built with.
pub open spec fn has_value(a: AttributeModel, value: AttrModel) -> bool {
    let floats = data_read::numbers(
        a.raw_data,
        a.datatype,
        "FloatingPoint",
        data_read::unknown_precision(a.datatype, false),
    );
    let integers = data_read::signed_values(a.raw_data, a.datatype, "FixedPoint (signed)");
    let texts = data_read::strings_of(a.raw_data, a.datatype);
    match value {
        AttrModel::F64(v) => floats == Ok::<Seq<Number>, ErrorModel>(seq![Number::Double(v)]),
        AttrModel::F64Array(list) => floats == Ok::<Seq<Number>, ErrorModel>(
            Seq::new(list.len(), |i: int| Number::Double(list[i])),
        ),
        AttrModel::I64(v) => integers == Ok::<Seq<i64>, ErrorModel>(seq![v]),
        AttrModel::I64Array(list) => integers == Ok::<Seq<i64>, ErrorModel>(list),
        AttrModel::U64(v) => data_read::unsigned_values(a.raw_data, a.datatype) == Ok::<
            Seq<u64>,
            ErrorModel,
        >(seq![v]),
        AttrModel::String(s) => texts matches Ok(list) && (if list.len() > 0 {
            list[0]
        } else {
            Seq::empty()
        }) == s,
        AttrModel::StringArray(list) => type_builders::longest(list, list.len() as int) > 0
            || list.len() == 0 ==> texts == Ok::<Seq<Seq<char>>, ErrorModel>(list),
    }
}

proof fn lemma_single_word(v: u64)
    ensures
        type_builders::words_bytes(seq![v], 1) == crate::bytes::le_bytes(v as nat, 8),
{
    assert(type_builders::words_bytes(seq![v], 0) =~= Seq::<u8>::empty());
    assert(type_builders::words_bytes(seq![v], 1) =~= crate::bytes::le_bytes(v as nat, 8));
}

/// The value that an attribute was built with can be read from it.
pub proof fn law_attribute_has_its_value(name: Seq<char>, value: AttrModel)
    requires
        is_storable(value),
    ensures
        has_value(type_builders::attribute_for(name, value), value),
{
    match value {
        AttrModel::F64(v) => {
            lemma_single_word(v);
            law_words_are_read_back(seq![v], Seq::empty());
            assert(Seq::new(1, |i: int| Number::Double(seq![v][i])) =~= seq![Number::Double(v)]);
        },
        AttrModel::F64Array(a) => {
            law_words_are_read_back(a, Seq::empty());
        },
        AttrModel::I64(v) => {
            lemma_single_word(v as u64);
            law_words_are_read_back(Seq::empty(), seq![v]);
            assert(type_builders::complemented(seq![v]) =~= seq![v as u64]);
        },
        AttrModel::I64Array(a) => {
            law_words_are_read_back(Seq::empty(), a);
        },
        AttrModel::U64(v) => {
            lemma_single_word(v);
            law_words_are_read_back(seq![v], Seq::empty());
        },
        AttrModel::String(s) => {
            lemma_text_value(s);
        },
        AttrModel::StringArray(a) => {
            if type_builders::longest(a, a.len() as int) > 0 || a.len() == 0 {
                law_texts_are_read_back(a);
            }
        },
    }
}

proof fn lemma_text_value(s: Seq<char>)
    requires
        encode_utf8(s).len() <= u32::MAX,
        is_paddable(s),
    ensures
        ({
            let b = encode_utf8(s);
            let texts = data_read::strings_of(b, type_builders::text_type(b.len() as u32));
            texts matches Ok(list) && (if list.len() > 0 {
                list[0]
            } else {
                Seq::empty()
            }) == s
        }),
{
    let b = encode_utf8(s);
    if s.len() == 0 {
        assert(b =~= Seq::<u8>::empty());
        assert(s =~= Seq::<char>::empty());
    } else {
        crate::text::lemma_last_byte(s);
        let n = b.len() as int;
        vstd::arithmetic::div_mod::lemma_mod_self_0(n);
        vstd::arithmetic::div_mod::lemma_div_by_self(n);
        assert(0 * n == 0 && (0 + 1) * n == n) by (nonlinear_arith);
        assert(data_read::element(b, n, 0) =~= b);
        lemma_padded_text(s, b.len());
        assert(b + Seq::new(0, |i: int| 0u8) =~= b);
    }
}

/// The message of an attribute that was built for a value is read back as that attribute.
pub proof fn law_built_attribute_round_trip(
    name: Seq<char>,
    value: AttrModel,
    version: u8,
    rest: Seq<u8>,
)
    requires
        is_storable(value),
        crate::datatype::is_name(name),
        encode_utf8(name).len() < 0xFFFF,
        version == 2 || version == 3,
        type_builders::attribute_for(name, value).raw_data.len() > 0 || rest.len() == 0,
    ensures
        ({
            let a = type_builders::attribute_for(name, value);
            crate::attribute::attribute_of(a.bytes(version, 8) + rest, 8) == Ok::<
                AttributeModel,
                ErrorModel,
            >(a)
        }),
{
    let a = type_builders::attribute_for(name, value);
    lemma_type_size(a.datatype);
    lemma_space_size(a.dataspace);
    lemma_value_size(name, value);
    crate::attribute::law_attribute_round_trip(a, version, 8, rest);
}

/// The datatype messages of numbers and texts are short.
proof fn lemma_type_size(m: DatatypeModel)
    requires
        m is FixedPoint || m is FloatingPoint || m is String,
    ensures
        crate::datatype::encoded(m).len() <= 24,
{
    match m {
        DatatypeModel::FixedPoint { size, bit_offset, bit_precision, .. } => {
            crate::bytes::lemma_le_bytes_len(size as nat, 4);
            crate::bytes::lemma_le_bytes_len(bit_offset as nat, 2);
            crate::bytes::lemma_le_bytes_len(bit_precision as nat, 2);
        },
        DatatypeModel::FloatingPoint { size, bit_offset, bit_precision, exponent_bias, .. } => {
            crate::bytes::lemma_le_bytes_len(size as nat, 4);
            crate::bytes::lemma_le_bytes_len(bit_offset as nat, 2);
            crate::bytes::lemma_le_bytes_len(bit_precision as nat, 2);
            crate::bytes::lemma_le_bytes_len(exponent_bias as nat, 4);
        },
        DatatypeModel::String { size, .. } => {
            crate::bytes::lemma_le_bytes_len(size as nat, 4);
        },
        _ => {},
    }
}

proof fn lemma_space_size(m: DataspaceModel)
    requires
        m == type_builders::scalar_space() || exists|n: u64|
            m == #[trigger] type_builders::line_space(n),
    ensures
        m.representable(8),
        m.bytes(8).len() <= 12,
{
    crate::bytes::lemma_pow256_values();
    if m == type_builders::scalar_space() {
        assert(crate::dataspace::lengths_bytes(m.dimensions, 0, 8) =~= Seq::<u8>::empty());
    } else {
        let n = choose|n: u64| m == #[trigger] type_builders::line_space(n);
        reveal_with_fuel(crate::dataspace::lengths_bytes, 2);
        crate::bytes::lemma_le_bytes_len(n as nat, 8);
    }
}

/// The value of a built attribute has the size that its type and data space call for.
proof fn lemma_value_size(name: Seq<char>, value: AttrModel)
    requires
        is_storable(value),
    ensures
        ({
            let a = type_builders::attribute_for(name, value);
            a.raw_data.len() == a.dataspace.elements() * a.datatype.size()
        }),
{
    let a = type_builders::attribute_for(name, value);
    let n = a.dataspace.elements();
    let size = a.datatype.size();
    match value {
        AttrModel::F64(v) => {
            crate::bytes::lemma_le_bytes_len(v as nat, 8);
        },
        AttrModel::F64Array(list) => {
            lemma_words_len(list, list.len() as int);
            lemma_line_elements(list.len() as u64);
            assert(size == 8);
            assert(n == list.len());
        },
        AttrModel::I64(v) => {
            crate::bytes::lemma_le_bytes_len(v as u64 as nat, 8);
        },
        AttrModel::I64Array(list) => {
            lemma_words_len(type_builders::complemented(list), list.len() as int);
            lemma_line_elements(list.len() as u64);
            assert(size == 8);
            assert(n == list.len());
        },
        AttrModel::U64(v) => {
            crate::bytes::lemma_le_bytes_len(v as nat, 8);
        },
        AttrModel::String(s) => {
            assert(n == 1 && size == encode_utf8(s).len());
            assert(n * size == size) by (nonlinear_arith)
                requires
                    n == 1,
            ;
        },
        AttrModel::StringArray(list) => {
            let width = type_builders::longest(list, list.len() as int);
            lemma_widths(list, list.len() as int);
            lemma_texts_len(list, width, list.len() as int);
            lemma_line_elements(list.len() as u64);
            assert(size == width);
            assert(n == list.len());
        },
    }
}

proof fn lemma_line_elements(n: u64)
    ensures
        type_builders::line_space(n).elements() == n,
{
    reveal_with_fuel(crate::dataspace::product, 2);
    assert(1 * n == n) by (nonlinear_arith);
}

} // verus!

//! Datatype messages of the classes without members, of any version, and what is read from them.

use vstd::prelude::*;
use crate::datatype::{
    self, CharacterSet, DatatypeByteOrder, DatatypeModel, ReferenceType, StringPadding,
};
use crate::datatype_versions::{self};
use crate::error::ErrorModel;
use crate::places;

verus! {

/// A message: its front, and what the class calls for.
pub open spec fn plain_bytes(
    class: int,
    version: int,
    flags: Seq<u8>,
    size: u32,
    body: Seq<u8>,
) -> Seq<u8> {
    datatype_versions::front_bytes(class, version, flags, size) + body
}

proof fn lemma_plain(
    d: Seq<u8>,
    class: int,
    version: int,
    flags: Seq<u8>,
    size: u32,
    body: Seq<u8>,
    rest: Seq<u8>,
)
    requires
        0 <= class < 16,
        0 <= version < 16,
        flags.len() == 3,
        d == plain_bytes(class, version, flags, size, body) + rest,
    ensures
        d.len() == 8 + body.len() + rest.len(),
        plain_bytes(class, version, flags, size, body).len() == 8 + body.len(),
        d[0] % 16 == class,
        d[0] / 16 == version,
        d[1] == flags[0],
        d[2] == flags[1],
        crate::bytes::u32_at(d, 4) == size,
        places::stands(d, 8, body),
{
    let front = datatype_versions::front_bytes(class, version, flags, size);
    places::lemma_whole(d);
    places::lemma_parts(d, 0, front + body, rest);
    places::lemma_parts(d, 0, front, body);
    datatype_versions::lemma_front(d, class, version, flags, size);
    places::lemma_byte(d, 1, flags, 0);
    places::lemma_byte(d, 1, flags, 1);
}

/// The order that the lowest bit of the flags stands for.
pub open spec fn order_in(flags: u8) -> DatatypeByteOrder {
    if flags % 2 == 1 {
        DatatypeByteOrder::BigEndian
    } else {
        DatatypeByteOrder::LittleEndian
    }
}

/// The place and the number of the bits that count.
pub open spec fn bits_bytes(bit_offset: u16, bit_precision: u16) -> Seq<u8> {
    places::field(bit_offset as int, 2) + places::field(bit_precision as int, 2)
}

proof fn lemma_bits(d: Seq<u8>, p: int, bit_offset: u16, bit_precision: u16)
    requires
        places::stands(d, p, bits_bytes(bit_offset, bit_precision)),
    ensures
        crate::bytes::u16_at(d, p) == bit_offset,
        crate::bytes::u16_at(d, p + 2) == bit_precision,
        bits_bytes(bit_offset, bit_precision).len() == 4,
        p + 4 <= d.len(),
{
    let a = places::field(bit_offset as int, 2);
    let b = places::field(bit_precision as int, 2);
    places::lemma_field_len(bit_offset as int, 2);
    places::lemma_field_len(bit_precision as int, 2);
    places::lemma_parts(d, p, a, b);
    places::lemma_u16(d, p, bit_offset as int);
    places::lemma_u16(d, p + 2, bit_precision as int);
}

/// An integer (class 0) is read with its size, its byte order, its sign and its bits, and a bit
/// field (class 4) with its size, its byte order and its bits.
#[verifier::spinoff_prover]
#[verifier::rlimit(60)]
pub proof fn law_integers_and_bit_fields_are_read(
    version: int,
    flags: Seq<u8>,
    size: u32,
    bit_offset: u16,
    bit_precision: u16,
)
    requires
        0 <= version < 16,
        flags.len() == 3,
    ensures
        datatype_versions::reads_as(
            plain_bytes(0, version, flags, size, bits_bytes(bit_offset, bit_precision)),
            DatatypeModel::FixedPoint {
                size,
                byte_order: order_in(flags[0]),
                signed: flags[0] / 8 % 2 == 1,
                bit_offset,
                bit_precision,
            },
        ),
        datatype_versions::reads_as(
            plain_bytes(4, version, flags, size, bits_bytes(bit_offset, bit_precision)),
            DatatypeModel::BitField {
                size,
                byte_order: order_in(flags[0]),
                bit_offset,
                bit_precision,
            },
        ),
{
    let body = bits_bytes(bit_offset, bit_precision);
    let e = plain_bytes(0, version, flags, size, body);
    assert forall|rest: Seq<u8>|
        #[trigger] datatype::parsed(e + rest) == Ok::<(DatatypeModel, int), ErrorModel>(
            (
                DatatypeModel::FixedPoint {
                    size,
                    byte_order: order_in(flags[0]),
                    signed: flags[0] / 8 % 2 == 1,
                    bit_offset,
                    bit_precision,
                },
                e.len() as int,
            ),
        ) by {
        lemma_plain(e + rest, 0, version, flags, size, body, rest);
        lemma_bits(e + rest, 8, bit_offset, bit_precision);
    }
    let f = plain_bytes(4, version, flags, size, body);
    assert forall|rest: Seq<u8>|
        #[trigger] datatype::parsed(f + rest) == Ok::<(DatatypeModel, int), ErrorModel>(
            (
                DatatypeModel::BitField {
                    size,
                    byte_order: order_in(flags[0]),
                    bit_offset,
                    bit_precision,
                },
                f.len() as int,
            ),
        ) by {
        lemma_plain(f + rest, 4, version, flags, size, body, rest);
        lemma_bits(f + rest, 8, bit_offset, bit_precision);
    }
}

/// What describes a floating-point number: its bits, the places and the sizes of its exponent and of
/// its mantissa, the bias of its exponent.
pub open spec fn float_body(bit_offset: u16, bit_precision: u16, parts: Seq<u8>, bias: u32) -> Seq<u8> {
    bits_bytes(bit_offset, bit_precision) + (parts + places::field(bias as int, 4))
}

/// A floating-point number (class 1) is read with its size, its byte order and its parts. The
/// seventh bit of the flags stands for the order of the VAX.
#[verifier::spinoff_prover]
#[verifier::rlimit(60)]
pub proof fn law_floats_are_read(
    version: int,
    flags: Seq<u8>,
    size: u32,
    bit_offset: u16,
    bit_precision: u16,
    parts: Seq<u8>,
    bias: u32,
)
    requires
        0 <= version < 16,
        flags.len() == 3,
        parts.len() == 4,
    ensures
        datatype_versions::reads_as(
            plain_bytes(
                1,
                version,
                flags,
                size,
                float_body(bit_offset, bit_precision, parts, bias),
            ),
            DatatypeModel::FloatingPoint {
                size,
                byte_order: if flags[0] / 64 % 2 == 1 {
                    DatatypeByteOrder::Vax
                } else {
                    order_in(flags[0])
                },
                bit_offset,
                bit_precision,
                exponent_location: parts[0],
                exponent_size: parts[1],
                mantissa_location: parts[2],
                mantissa_size: parts[3],
                exponent_bias: bias,
            },
        ),
{
    let body = float_body(bit_offset, bit_precision, parts, bias);
    let e = plain_bytes(1, version, flags, size, body);
    assert forall|rest: Seq<u8>|
        #[trigger] datatype::parsed(e + rest) == Ok::<(DatatypeModel, int), ErrorModel>(
            (
                DatatypeModel::FloatingPoint {
                    size,
                    byte_order: if flags[0] / 64 % 2 == 1 {
                        DatatypeByteOrder::Vax
                    } else {
                        order_in(flags[0])
                    },
                    bit_offset,
                    bit_precision,
                    exponent_location: parts[0],
                    exponent_size: parts[1],
                    mantissa_location: parts[2],
                    mantissa_size: parts[3],
                    exponent_bias: bias,
                },
                e.len() as int,
            ),
        ) by {
        let d = e + rest;
        lemma_plain(d, 1, version, flags, size, body, rest);
        let b = bits_bytes(bit_offset, bit_precision);
        let f = places::field(bias as int, 4);
        places::lemma_field_len(bias as int, 4);
        places::lemma_parts(d, 8, b, parts + f);
        lemma_bits(d, 8, bit_offset, bit_precision);
        places::lemma_parts(d, 12, parts, f);
        places::lemma_byte(d, 12, parts, 0);
        places::lemma_byte(d, 12, parts, 1);
        places::lemma_byte(d, 12, parts, 2);
        places::lemma_byte(d, 12, parts, 3);
        places::lemma_u32(d, 16, bias as int);
    }
}

/// The paddings by their numbers.
pub open spec fn padding_number(p: StringPadding) -> int {
    match p {
        StringPadding::NullTerminate => 0,
        StringPadding::NullPad => 1,
        StringPadding::SpacePad => 2,
    }
}

/// The character sets by their numbers.
pub open spec fn charset_number(c: CharacterSet) -> int {
    match c {
        CharacterSet::Ascii => 0,
        CharacterSet::Utf8 => 1,
    }
}

/// A time (class 2) is read with its size and its bits, a string (class 3) with its size, its
/// padding and its character set, a reference (class 7) with its size and its type.
#[verifier::spinoff_prover]
#[verifier::rlimit(60)]
pub proof fn law_times_strings_and_references_are_read(
    version: int,
    flags: Seq<u8>,
    size: u32,
    bit_precision: u16,
    padding: StringPadding,
    charset: CharacterSet,
    ref_type: ReferenceType,
)
    requires
        0 <= version < 16,
        flags.len() == 3,
    ensures
        datatype_versions::reads_as(
            plain_bytes(2, version, flags, size, places::field(bit_precision as int, 2)),
            DatatypeModel::Time { size, bit_precision },
        ),
        flags[0] == padding_number(padding) + 16 * charset_number(charset)
            ==> datatype_versions::reads_as(
            plain_bytes(3, version, flags, size, Seq::empty()),
            DatatypeModel::String { size, padding, charset },
        ),
        flags[0] % 16 == (if ref_type == ReferenceType::Object {
            0int
        } else {
            1
        }) ==> datatype_versions::reads_as(
            plain_bytes(7, version, flags, size, Seq::empty()),
            DatatypeModel::Reference { size, ref_type },
        ),
{
    let body = places::field(bit_precision as int, 2);
    let none = Seq::<u8>::empty();
    let e = plain_bytes(2, version, flags, size, body);
    assert forall|rest: Seq<u8>|
        #[trigger] datatype::parsed(e + rest) == Ok::<(DatatypeModel, int), ErrorModel>(
            (DatatypeModel::Time { size, bit_precision }, e.len() as int),
        ) by {
        lemma_plain(e + rest, 2, version, flags, size, body, rest);
        places::lemma_field_len(bit_precision as int, 2);
        places::lemma_u16(e + rest, 8, bit_precision as int);
    }
    if flags[0] == padding_number(padding) + 16 * charset_number(charset) {
        let s = plain_bytes(3, version, flags, size, none);
        assert forall|rest: Seq<u8>|
            #[trigger] datatype::parsed(s + rest) == Ok::<(DatatypeModel, int), ErrorModel>(
                (DatatypeModel::String { size, padding, charset }, s.len() as int),
            ) by {
            lemma_plain(s + rest, 3, version, flags, size, none, rest);
        }
    }
    if flags[0] % 16 == (if ref_type == ReferenceType::Object {
        0int
    } else {
        1
    }) {
        let r = plain_bytes(7, version, flags, size, none);
        assert forall|rest: Seq<u8>|
            #[trigger] datatype::parsed(r + rest) == Ok::<(DatatypeModel, int), ErrorModel>(
                (DatatypeModel::Reference { size, ref_type }, r.len() as int),
            ) by {
            lemma_plain(r + rest, 7, version, flags, size, none, rest);
        }
    }
}

/// An opaque type (class 5) is read with its size and its tag, whose length stands in the flags. The
/// tag is filled up to a multiple of eight bytes.
#[verifier::spinoff_prover]
#[verifier::rlimit(60)]
pub proof fn law_opaque_types_are_read(version: int, high: Seq<u8>, size: u32, tag: Seq<u8>)
    requires
        0 <= version < 16,
        high.len() == 2,
        tag.len() <= 255,
    ensures
        datatype_versions::reads_as(
            plain_bytes(
                5,
                version,
                seq![tag.len() as u8] + high,
                size,
                tag + datatype_versions::filler(tag.len() as int),
            ),
            DatatypeModel::Opaque { size, tag },
        ),
{
    let flags = seq![tag.len() as u8] + high;
    let fill = datatype_versions::filler(tag.len() as int);
    let e = plain_bytes(5, version, flags, size, tag + fill);
    assert forall|rest: Seq<u8>|
        #[trigger] datatype::parsed(e + rest) == Ok::<(DatatypeModel, int), ErrorModel>(
            (DatatypeModel::Opaque { size, tag }, e.len() as int),
        ) by {
        lemma_plain(e + rest, 5, version, flags, size, tag + fill, rest);
        places::lemma_parts(e + rest, 8, tag, fill);
    }
}

/// A string of variable length (class 9) is read with its padding and its character set.
#[verifier::spinoff_prover]
#[verifier::rlimit(60)]
pub proof fn law_variable_strings_are_read(
    version: int,
    flags: Seq<u8>,
    size: u32,
    padding: StringPadding,
    charset: CharacterSet,
    base: Seq<u8>,
    base_type: DatatypeModel,
)
    requires
        0 <= version < 16,
        flags.len() == 3,
        flags[0] == 1 + 16 * padding_number(padding),
        flags[1] % 16 == charset_number(charset),
        datatype_versions::reads_as(base, base_type),
    ensures
        datatype_versions::reads_as(
            plain_bytes(9, version, flags, size, base),
            DatatypeModel::VariableLength {
                is_string: true,
                padding: Some(padding),
                charset: Some(charset),
                base_type: Box::new(base_type),
            },
        ),
{
    let e = plain_bytes(9, version, flags, size, base);
    assert forall|rest: Seq<u8>|
        #[trigger] datatype::parsed(e + rest) == Ok::<(DatatypeModel, int), ErrorModel>(
            (
                DatatypeModel::VariableLength {
                    is_string: true,
                    padding: Some(padding),
                    charset: Some(charset),
                    base_type: Box::new(base_type),
                },
                e.len() as int,
            ),
        ) by {
        lemma_plain(e + rest, 9, version, flags, size, base, rest);
        datatype_versions::lemma_type_at(e + rest, 8, base, base_type);
    }
}

/// An array has the size of its elements times their number, as far as that fits in 32 bits.
pub proof fn law_array_size(base_type: DatatypeModel, dimensions: Seq<u32>, n: u32)
    requires
        (DatatypeModel::Array {
            base_type: Box::new(base_type),
            dimensions: dimensions.push(n),
        }).size() < u32::MAX,
        n > 0,
    ensures
        (DatatypeModel::Array { base_type: Box::new(base_type), dimensions: Seq::empty() }).size()
            == base_type.size(),
        (DatatypeModel::Array {
            base_type: Box::new(base_type),
            dimensions: dimensions.push(n),
        }).size() == (DatatypeModel::Array {
            base_type: Box::new(base_type),
            dimensions,
        }).size() * n,
{
    let k = dimensions.len() as int;
    let more = dimensions.push(n);
    let b = base_type.size() as int;
    lemma_count_front(dimensions, more, k);
    let c = datatype::saturating_count(dimensions, k) as int;
    let m = datatype::saturating_count(more, k + 1) as int;
    assert(more[k] == n);
    assert(m == if c * n > u32::MAX {
        u32::MAX as int
    } else {
        c * n
    });
    if b > 0 {
        if c * n > u32::MAX {
            assert(b * m >= u32::MAX) by (nonlinear_arith)
                requires
                    b >= 1,
                    m == 0xFFFF_FFFF,
            ;
        } else {
            assert(b * (c * n) == (b * c) * n) by (nonlinear_arith);
            assert(b * c <= (b * c) * n) by (nonlinear_arith)
                requires
                    n >= 1,
                    b >= 0,
                    c >= 0,
            ;
        }
    } else {
        assert(b * m == 0 && b * c == 0) by (nonlinear_arith)
            requires
                b == 0,
        ;
    }
}

proof fn lemma_count_front(a: Seq<u32>, b: Seq<u32>, n: int)
    requires
        0 <= n <= a.len() <= b.len(),
        forall|i: int| 0 <= i < a.len() ==> a[i] == b[i],
    ensures
        datatype::saturating_count(a, n) == datatype::saturating_count(b, n),
    decreases n,
{
    if n > 0 {
        lemma_count_front(a, b, n - 1);
    }
}

// ---- Built types ----

/// The members of a built compound stand one behind the other: the first one at the front, each of
/// the others where the one before it ends, and the compound ends where the last one does.
pub proof fn law_built_compound_is_dense(fields: Seq<(Seq<char>, DatatypeModel)>)
    requires
        crate::type_builders::field_offset(fields, fields.len() as int) <= u32::MAX,
    ensures
        crate::type_builders::compound_type(fields) matches DatatypeModel::Compound {
            size,
            members,
        } && {
            &&& members.len() == fields.len()
            &&& members.len() == 0 ==> size == 0
            &&& members.len() > 0 ==> members[0].byte_offset == 0
            &&& members.len() > 0 ==> size == members[members.len() - 1].byte_offset
                + members[members.len() - 1].datatype.size()
            &&& forall|i: int|
                0 <= i < members.len() ==> (#[trigger] members[i]).name == fields[i].0
                    && members[i].datatype == fields[i].1
            &&& forall|i: int|
                0 < i < members.len() ==> (#[trigger] members[i]).byte_offset == members[i
                    - 1].byte_offset + members[i - 1].datatype.size()
        },
{
    let n = fields.len() as int;
    assert forall|i: int| 0 <= i <= n implies #[trigger] crate::type_builders::field_offset(
        fields,
        i,
    ) <= u32::MAX by {
        lemma_offsets_grow(fields, i, n);
    }
}

proof fn lemma_offsets_grow(fields: Seq<(Seq<char>, DatatypeModel)>, i: int, n: int)
    requires
        0 <= i <= n <= fields.len(),
    ensures
        crate::type_builders::field_offset(fields, i) <= crate::type_builders::field_offset(
            fields,
            n,
        ),
    decreases n - i,
{
    if i < n {
        lemma_offsets_grow(fields, i, n - 1);
    }
}

} // verus!

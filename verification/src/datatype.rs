//! HDF5 Datatype messages (message type 0x0003).
//!
//! Supports all 12 HDF5 type classes (0-11) with recursive parsing
//! for compound, enumeration, variable-length, and array types.

use vstd::prelude::*;
use vstd::slice::{slice_subrange, slice_to_vec};
use crate::bytes::{
    byte_len, order_u16, order_u32, order_u64, put_fill, put_le, put_slice, put_u16, put_u32,
};
use crate::error::{ErrorModel, FormatError};
use crate::text::{decode_lossy, find_zero};
use crate::utils::{ensure_len, pad8};

verus! {

broadcast use {
    vstd::std_specs::control_flow::group_control_flow_axioms,
    vstd::std_specs::vec::axiom_vec_index_decreases,
};

/// Byte order of numeric data.
#[derive(Debug, Clone, Copy, PartialEq, Eq, Structural)]
pub enum DatatypeByteOrder {
    LittleEndian,
    BigEndian,
    Vax,
}

/// String padding type.
#[derive(Debug, Clone, Copy, PartialEq, Eq, Structural)]
pub enum StringPadding {
    NullTerminate,
    NullPad,
    SpacePad,
}

/// Character set encoding.
#[derive(Debug, Clone, Copy, PartialEq, Eq, Structural)]
pub enum CharacterSet {
    Ascii,
    Utf8,
}

/// Reference type.
#[derive(Debug, Clone, Copy, PartialEq, Eq, Structural)]
pub enum ReferenceType {
    Object,
    DatasetRegion,
}

/// A member of a compound datatype.
#[derive(Debug, PartialEq)]
pub struct CompoundMember {
    /// Member name.
    pub name: String,
    /// Byte offset within the compound.
    pub byte_offset: u64,
    /// Member datatype.
    pub datatype: Datatype,
}

/// A member of an enumeration datatype.
#[derive(Debug, PartialEq)]
pub struct EnumMember {
    /// Member name.
    pub name: String,
    /// Raw value bytes (length = base type size).
    pub value: Vec<u8>,
}

pub const CLASS_ID_FIXED_POINT: u8 = 0;

pub const CLASS_ID_FLOATING_POINT: u8 = 1;

pub const CLASS_ID_TIME: u8 = 2;

pub const CLASS_ID_STRING: u8 = 3;

pub const CLASS_ID_BIT_FIELD: u8 = 4;

pub const CLASS_ID_OPAQUE: u8 = 5;

pub const CLASS_ID_COMPOUND: u8 = 6;

pub const CLASS_ID_REFERENCE: u8 = 7;

pub const CLASS_ID_ENUMERATION: u8 = 8;

pub const CLASS_ID_VARIABLE_LENGTH: u8 = 9;

pub const CLASS_ID_ARRAY: u8 = 10;

pub const CLASS_ID_COMPLEX: u8 = 11;

/// Parsed HDF5 datatype.
#[derive(Debug, PartialEq)]
pub enum Datatype {
    /// Class 0: Fixed-point (integer) types.
    FixedPoint {
        size: u32,
        byte_order: DatatypeByteOrder,
        signed: bool,
        bit_offset: u16,
        bit_precision: u16,
    },
    /// Class 1: Floating-point types.
    FloatingPoint {
        size: u32,
        byte_order: DatatypeByteOrder,
        bit_offset: u16,
        bit_precision: u16,
        exponent_location: u8,
        exponent_size: u8,
        mantissa_location: u8,
        mantissa_size: u8,
        exponent_bias: u32,
    },
    /// Class 2: Time type (rarely used).
    Time { size: u32, bit_precision: u16 },
    /// Class 3: Fixed-length string.
    String { size: u32, padding: StringPadding, charset: CharacterSet },
    /// Class 4: Bit field.
    BitField { size: u32, byte_order: DatatypeByteOrder, bit_offset: u16, bit_precision: u16 },
    /// Class 5: Opaque data.
    Opaque { size: u32, tag: Vec<u8> },
    /// Class 6: Compound type.
    Compound { size: u32, members: Vec<CompoundMember> },
    /// Class 7: Reference type.
    Reference { size: u32, ref_type: ReferenceType },
    /// Class 8: Enumeration type.
    Enumeration { size: u32, base_type: Box<Datatype>, members: Vec<EnumMember> },
    /// Class 9: Variable-length type.
    VariableLength {
        is_string: bool,
        padding: Option<StringPadding>,
        charset: Option<CharacterSet>,
        base_type: Box<Datatype>,
    },
    /// Class 10: Array type.
    Array { base_type: Box<Datatype>, dimensions: Vec<u32> },
}

/// The content of a [`CompoundMember`].
pub struct CompoundMemberModel {
    pub name: Seq<char>,
    pub byte_offset: u64,
    pub datatype: DatatypeModel,
}

/// The content of an [`EnumMember`].
pub struct EnumMemberModel {
    pub name: Seq<char>,
    pub value: Seq<u8>,
}

/// The content of a [`Datatype`].
pub enum DatatypeModel {
    FixedPoint {
        size: u32,
        byte_order: DatatypeByteOrder,
        signed: bool,
        bit_offset: u16,
        bit_precision: u16,
    },
    FloatingPoint {
        size: u32,
        byte_order: DatatypeByteOrder,
        bit_offset: u16,
        bit_precision: u16,
        exponent_location: u8,
        exponent_size: u8,
        mantissa_location: u8,
        mantissa_size: u8,
        exponent_bias: u32,
    },
    Time { size: u32, bit_precision: u16 },
    String { size: u32, padding: StringPadding, charset: CharacterSet },
    BitField { size: u32, byte_order: DatatypeByteOrder, bit_offset: u16, bit_precision: u16 },
    Opaque { size: u32, tag: Seq<u8> },
    Compound { size: u32, members: Seq<CompoundMemberModel> },
    Reference { size: u32, ref_type: ReferenceType },
    Enumeration { size: u32, base_type: Box<DatatypeModel>, members: Seq<EnumMemberModel> },
    VariableLength {
        is_string: bool,
        padding: Option<StringPadding>,
        charset: Option<CharacterSet>,
        base_type: Box<DatatypeModel>,
    },
    Array { base_type: Box<DatatypeModel>, dimensions: Seq<u32> },
}

impl EnumMember {
    /// The content of this member.
    pub open spec fn model(self) -> EnumMemberModel {
        EnumMemberModel { name: self.name@, value: self.value@ }
    }
}

/// The content of a list of enumeration members.
pub open spec fn enum_models(members: Seq<EnumMember>) -> Seq<EnumMemberModel> {
    Seq::new(members.len(), |i: int| members[i].model())
}

impl Datatype {
    /// The content of this datatype.
    pub open spec fn model(self) -> DatatypeModel
        decreases self,
    {
        match self {
            Datatype::FixedPoint { size, byte_order, signed, bit_offset, bit_precision } =>
                DatatypeModel::FixedPoint { size, byte_order, signed, bit_offset, bit_precision },
            Datatype::FloatingPoint {
                size,
                byte_order,
                bit_offset,
                bit_precision,
                exponent_location,
                exponent_size,
                mantissa_location,
                mantissa_size,
                exponent_bias,
            } => DatatypeModel::FloatingPoint {
                size,
                byte_order,
                bit_offset,
                bit_precision,
                exponent_location,
                exponent_size,
                mantissa_location,
                mantissa_size,
                exponent_bias,
            },
            Datatype::Time { size, bit_precision } => DatatypeModel::Time { size, bit_precision },
            Datatype::String { size, padding, charset } => DatatypeModel::String {
                size,
                padding,
                charset,
            },
            Datatype::BitField { size, byte_order, bit_offset, bit_precision } =>
                DatatypeModel::BitField { size, byte_order, bit_offset, bit_precision },
            Datatype::Opaque { size, tag } => DatatypeModel::Opaque { size, tag: tag@ },
            Datatype::Compound { size, members } => DatatypeModel::Compound {
                size,
                members: Seq::new(
                    members@.len(),
                    |i: int|
                        if 0 <= i < members.len() {
                            CompoundMemberModel {
                                name: members[i].name@,
                                byte_offset: members[i].byte_offset,
                                datatype: members[i].datatype.model(),
                            }
                        } else {
                            arbitrary()
                        },
                ),
            },
            Datatype::Reference { size, ref_type } => DatatypeModel::Reference { size, ref_type },
            Datatype::Enumeration { size, base_type, members } => DatatypeModel::Enumeration {
                size,
                base_type: Box::new(base_type.model()),
                members: enum_models(members@),
            },
            Datatype::VariableLength { is_string, padding, charset, base_type } =>
                DatatypeModel::VariableLength {
                    is_string,
                    padding,
                    charset,
                    base_type: Box::new(base_type.model()),
                },
            Datatype::Array { base_type, dimensions } => DatatypeModel::Array {
                base_type: Box::new(base_type.model()),
                dimensions: dimensions@,
            },
        }
    }
}

impl DeepView for Datatype {
    type V = DatatypeModel;

    open spec fn deep_view(&self) -> DatatypeModel {
        self.model()
    }
}

impl CompoundMember {
    /// The content of this member.
    pub open spec fn model(self) -> CompoundMemberModel {
        CompoundMemberModel {
            name: self.name@,
            byte_offset: self.byte_offset,
            datatype: self.datatype.model(),
        }
    }
}

/// The content of a list of compound members.
pub open spec fn member_models(members: Seq<CompoundMember>) -> Seq<CompoundMemberModel> {
    Seq::new(members.len(), |i: int| members[i].model())
}

/// The content of a compound type is that of its members.
pub proof fn lemma_compound_model(size: u32, members: Vec<CompoundMember>)
    ensures
        (Datatype::Compound { size, members }).model() == (DatatypeModel::Compound {
            size,
            members: member_models(members@),
        }),
{
    let m = (Datatype::Compound { size, members }).model();
    assert(m->Compound_members =~= member_models(members@));
}

// ---- Fields of the message ----

/// The string padding with the given code.
pub open spec fn padding_of(val: u8) -> Result<StringPadding, ErrorModel> {
    match val {
        0 => Ok(StringPadding::NullTerminate),
        1 => Ok(StringPadding::NullPad),
        2 => Ok(StringPadding::SpacePad),
        _ => Err(ErrorModel::Plain(FormatError::InvalidStringPadding(val))),
    }
}

/// The code of a string padding.
pub open spec fn padding_code(p: StringPadding) -> u8 {
    match p {
        StringPadding::NullTerminate => 0,
        StringPadding::NullPad => 1,
        StringPadding::SpacePad => 2,
    }
}

/// The character set with the given code.
pub open spec fn charset_of(val: u8) -> Result<CharacterSet, ErrorModel> {
    match val {
        0 => Ok(CharacterSet::Ascii),
        1 => Ok(CharacterSet::Utf8),
        _ => Err(ErrorModel::Plain(FormatError::InvalidCharacterSet(val))),
    }
}

/// The code of a character set.
pub open spec fn charset_code(c: CharacterSet) -> u8 {
    match c {
        CharacterSet::Ascii => 0,
        CharacterSet::Utf8 => 1,
    }
}

/// The byte order that the low bit of the bit field selects.
pub open spec fn order_of(bf0: u8) -> DatatypeByteOrder {
    if bf0 % 2 == 0 {
        DatatypeByteOrder::LittleEndian
    } else {
        DatatypeByteOrder::BigEndian
    }
}

/// The zero-terminated text at `pos`, and the bytes that it takes with its terminator.
pub open spec fn name_at(d: Seq<u8>, pos: int) -> Result<(Seq<char>, int), ErrorModel> {
    let end = crate::text::zero_from(d, pos);
    if pos >= d.len() || end >= d.len() {
        Err(crate::utils::eof(d, pos, 1))
    } else {
        Ok((crate::text::lossy_text(d.subrange(pos, end)), end + 1 - pos))
    }
}

/// How many bytes encode a member offset in a compound of the given size.
pub open spec fn offset_width(compound_size: u32) -> int {
    if compound_size <= 0xFF {
        1
    } else if compound_size <= 0xFFFF {
        2
    } else {
        4
    }
}

/// The element count of an array: the product of the first `k` dimensions, saturating.
pub open spec fn saturating_count(dims: Seq<u32>, k: int) -> u32
    decreases k,
{
    if k <= 0 {
        1
    } else {
        saturating_product(saturating_count(dims, k - 1), dims[k - 1])
    }
}

/// The product of `a` and `b`, or the largest `u32`.
pub open spec fn saturating_product(a: u32, b: u32) -> u32 {
    if a * b > u32::MAX {
        u32::MAX
    } else {
        (a * b) as u32
    }
}

impl DatatypeModel {
    /// The size in bytes of one element.
    pub open spec fn size(self) -> u32
        decreases self,
    {
        match self {
            DatatypeModel::FixedPoint { size, .. } => size,
            DatatypeModel::FloatingPoint { size, .. } => size,
            DatatypeModel::Time { size, .. } => size,
            DatatypeModel::String { size, .. } => size,
            DatatypeModel::BitField { size, .. } => size,
            DatatypeModel::Opaque { size, .. } => size,
            DatatypeModel::Compound { size, .. } => size,
            DatatypeModel::Reference { size, .. } => size,
            DatatypeModel::Enumeration { size, .. } => size,
            DatatypeModel::VariableLength { .. } => 16,
            DatatypeModel::Array { base_type, dimensions } => saturating_product(
                base_type.size(),
                saturating_count(dimensions, dimensions.len() as int),
            ),
        }
    }

    /// The name of the type class.
    pub open spec fn class_name(self) -> &'static str {
        match self {
            DatatypeModel::FixedPoint { .. } => "FixedPoint",
            DatatypeModel::FloatingPoint { .. } => "FloatingPoint",
            DatatypeModel::String { .. } => "String",
            DatatypeModel::Time { .. } => "Time",
            DatatypeModel::BitField { .. } => "BitField",
            DatatypeModel::Opaque { .. } => "Opaque",
            DatatypeModel::Compound { .. } => "Compound",
            DatatypeModel::Reference { .. } => "Reference",
            DatatypeModel::Enumeration { .. } => "Enumeration",
            DatatypeModel::VariableLength { .. } => "VariableLength",
            DatatypeModel::Array { .. } => "Array",
        }
    }

    /// The byte order of the elements.
    pub open spec fn order(self) -> DatatypeByteOrder {
        match self {
            DatatypeModel::FixedPoint { byte_order, .. } => byte_order,
            DatatypeModel::FloatingPoint { byte_order, .. } => byte_order,
            DatatypeModel::BitField { byte_order, .. } => byte_order,
            _ => DatatypeByteOrder::LittleEndian,
        }
    }
}

/// What a parsed datatype consists of: its content, and the bytes that it takes.
pub type Parsed = Result<(DatatypeModel, int), ErrorModel>;

// ---- The format, class by class ----

/// The datatype at the front of `d`.
pub open spec fn parsed(d: Seq<u8>) -> Parsed
    decreases d.len(), 3int, 0int,
{
    if !crate::utils::fits(d, 0, 8) {
        Err(crate::utils::eof(d, 0, 8))
    } else {
        let class = d[0] % 16;
        let version = d[0] / 16;
        let size = crate::bytes::u32_at(d, 4);
        if class == CLASS_ID_FIXED_POINT {
            parsed_fixed_point(d, size)
        } else if class == CLASS_ID_FLOATING_POINT {
            parsed_floating_point(d, size)
        } else if class == CLASS_ID_TIME {
            parsed_time(d, size)
        } else if class == CLASS_ID_STRING {
            parsed_string(d, size)
        } else if class == CLASS_ID_BIT_FIELD {
            parsed_bit_field(d, size)
        } else if class == CLASS_ID_OPAQUE {
            parsed_opaque(d, size)
        } else if class == CLASS_ID_COMPOUND {
            let count = crate::bytes::u16_at(d, 1) as nat;
            if version == 3 || version == 4 {
                compound_of(size, members_at(d, 8, offset_width(size), count, Seq::empty()))
            } else if version == 1 || version == 2 {
                compound_of(size, old_members_at(d, 8, version, count, Seq::empty()))
            } else {
                Err(ErrorModel::Plain(FormatError::InvalidDatatypeVersion { class, version }))
            }
        } else if class == CLASS_ID_REFERENCE {
            parsed_reference(d, size)
        } else if class == CLASS_ID_ENUMERATION {
            match parsed(d.subrange(8, d.len() as int)) {
                Err(e) => Err(e),
                Ok((base, used)) => parsed_enumeration(d, size, version, base, 8 + used),
            }
        } else if class == CLASS_ID_VARIABLE_LENGTH {
            match variable_length_kind(d) {
                Err(e) => Err(e),
                Ok((is_string, padding, charset)) => match parsed(d.subrange(8, d.len() as int)) {
                    Err(e) => Err(e),
                    Ok((base, used)) => Ok(
                        (
                            DatatypeModel::VariableLength {
                                is_string,
                                padding,
                                charset,
                                base_type: Box::new(base),
                            },
                            8 + used,
                        ),
                    ),
                },
            }
        } else if class == CLASS_ID_ARRAY {
            if version == 2 {
                parsed_array(d, 3, 4)
            } else if version == 3 {
                parsed_array(d, 0, 0)
            } else {
                Err(ErrorModel::Plain(FormatError::InvalidDatatypeVersion { class, version }))
            }
        } else if class == CLASS_ID_COMPLEX {
            compound_of(
                size,
                members_at(
                    d,
                    8,
                    offset_width(size),
                    crate::bytes::u16_at(d, 1) as nat,
                    Seq::empty(),
                ),
            )
        } else {
            Err(ErrorModel::Plain(FormatError::InvalidDatatypeClass(class)))
        }
    }
}

/// The bit offset and the bit precision at `pos`.
pub open spec fn bits_at(d: Seq<u8>, pos: int) -> Result<(u16, u16), ErrorModel> {
    if !crate::utils::fits(d, pos, 4) {
        Err(crate::utils::eof(d, pos, 4))
    } else {
        Ok((crate::bytes::u16_at(d, pos), crate::bytes::u16_at(d, pos + 2)))
    }
}

pub open spec fn parsed_fixed_point(d: Seq<u8>, size: u32) -> Parsed {
    match bits_at(d, 8) {
        Err(e) => Err(e),
        Ok((bit_offset, bit_precision)) => Ok(
            (
                DatatypeModel::FixedPoint {
                    size,
                    byte_order: order_of(d[1]),
                    signed: d[1] / 8 % 2 == 1,
                    bit_offset,
                    bit_precision,
                },
                12,
            ),
        ),
    }
}

pub open spec fn parsed_floating_point(d: Seq<u8>, size: u32) -> Parsed {
    if !crate::utils::fits(d, 8, 12) {
        Err(crate::utils::eof(d, 8, 12))
    } else {
        Ok(
            (
                DatatypeModel::FloatingPoint {
                    size,
                    byte_order: if d[1] / 64 % 2 == 1 {
                        DatatypeByteOrder::Vax
                    } else {
                        order_of(d[1])
                    },
                    bit_offset: crate::bytes::u16_at(d, 8),
                    bit_precision: crate::bytes::u16_at(d, 10),
                    exponent_location: d[12],
                    exponent_size: d[13],
                    mantissa_location: d[14],
                    mantissa_size: d[15],
                    exponent_bias: crate::bytes::u32_at(d, 16),
                },
                20,
            ),
        )
    }
}

pub open spec fn parsed_time(d: Seq<u8>, size: u32) -> Parsed {
    if !crate::utils::fits(d, 8, 2) {
        Err(crate::utils::eof(d, 8, 2))
    } else {
        Ok((DatatypeModel::Time { size, bit_precision: crate::bytes::u16_at(d, 8) }, 10))
    }
}

pub open spec fn parsed_string(d: Seq<u8>, size: u32) -> Parsed {
    match padding_of(d[1] % 16) {
        Err(e) => Err(e),
        Ok(padding) => match charset_of(d[1] / 16) {
            Err(e) => Err(e),
            Ok(charset) => Ok((DatatypeModel::String { size, padding, charset }, 8)),
        },
    }
}

pub open spec fn parsed_bit_field(d: Seq<u8>, size: u32) -> Parsed {
    match bits_at(d, 8) {
        Err(e) => Err(e),
        Ok((bit_offset, bit_precision)) => Ok(
            (
                DatatypeModel::BitField {
                    size,
                    byte_order: order_of(d[1]),
                    bit_offset,
                    bit_precision,
                },
                12,
            ),
        ),
    }
}

/// The tag is padded to a multiple of eight bytes.
pub open spec fn parsed_opaque(d: Seq<u8>, size: u32) -> Parsed {
    if !crate::utils::fits(d, 8, d[1] as int) {
        Err(crate::utils::eof(d, 8, d[1] as int))
    } else {
        Ok(
            (
                DatatypeModel::Opaque { size, tag: d.subrange(8, 8 + d[1]) },
                8 + crate::utils::padded8(d[1] as int),
            ),
        )
    }
}

pub open spec fn parsed_reference(d: Seq<u8>, size: u32) -> Parsed {
    match (d[1] % 16) as u8 {
        0 => Ok((DatatypeModel::Reference { size, ref_type: ReferenceType::Object }, 8)),
        1 => Ok((DatatypeModel::Reference { size, ref_type: ReferenceType::DatasetRegion }, 8)),
        other => Err(ErrorModel::Plain(FormatError::InvalidReferenceType(other))),
    }
}

/// The compound with the given members.
pub open spec fn compound_of(
    size: u32,
    members: Result<(Seq<CompoundMemberModel>, int), ErrorModel>,
) -> Parsed {
    match members {
        Err(e) => Err(e),
        Ok((members, end)) => Ok((DatatypeModel::Compound { size, members }, end)),
    }
}

/// The `count` compound members at `pos`, after those in `done`: name, offset of `ob` bytes,
/// datatype.
pub open spec fn members_at(
    d: Seq<u8>,
    pos: int,
    ob: int,
    count: nat,
    done: Seq<CompoundMemberModel>,
) -> Result<(Seq<CompoundMemberModel>, int), ErrorModel>
    decreases d.len(), 2int, count,
    when 0 < pos && 0 < ob
{
    if count == 0 {
        Ok((done, pos))
    } else {
        match name_at(d, pos) {
            Err(e) => Err(e),
            Ok((name, name_len)) => {
                let p = pos + name_len;
                if !crate::utils::fits(d, p, ob) {
                    Err(crate::utils::eof(d, p, ob))
                } else {
                    proof {
                        crate::text::lemma_zero_from(d, pos);
                    }
                    match parsed(d.subrange(p + ob, d.len() as int)) {
                        Err(e) => Err(e),
                        Ok((datatype, used)) => members_at(
                            d,
                            p + ob + used,
                            ob,
                            (count - 1) as nat,
                            done.push(
                                CompoundMemberModel {
                                    name,
                                    byte_offset: crate::utils::uint_at(d, p, ob as u8),
                                    datatype,
                                },
                            ),
                        ),
                    }
                }
            },
        }
    }
}

/// The `count` compound members at `pos`, after those in `done`, in versions 1 and 2: name
/// (padded in version 1), offset of four bytes, 24 bytes of dimension data, datatype.
pub open spec fn old_members_at(
    d: Seq<u8>,
    pos: int,
    version: u8,
    count: nat,
    done: Seq<CompoundMemberModel>,
) -> Result<(Seq<CompoundMemberModel>, int), ErrorModel>
    decreases d.len(), 2int, count,
    when 0 < pos
{
    if count == 0 {
        Ok((done, pos))
    } else {
        match name_at(d, pos) {
            Err(e) => Err(e),
            Ok((name, name_len)) => {
                let p = pos + if version == 1 {
                    crate::utils::padded8(name_len)
                } else {
                    name_len
                };
                if !crate::utils::fits(d, p, 4) {
                    Err(crate::utils::eof(d, p, 4))
                } else if !crate::utils::fits(d, p + 4, 24) {
                    Err(crate::utils::eof(d, p + 4, 24))
                } else {
                    proof {
                        crate::text::lemma_zero_from(d, pos);
                    }
                    match parsed(d.subrange(p + 28, d.len() as int)) {
                        Err(e) => Err(e),
                        Ok((datatype, used)) => old_members_at(
                            d,
                            p + 28 + used,
                            version,
                            (count - 1) as nat,
                            done.push(
                                CompoundMemberModel {
                                    name,
                                    byte_offset: crate::bytes::u32_at(d, p) as u64,
                                    datatype,
                                },
                            ),
                        ),
                    }
                }
            },
        }
    }
}

/// The `count` member names at `pos`, after those in `done`; before version 3 each is padded to a
/// multiple of eight bytes.
pub open spec fn names_at(
    d: Seq<u8>,
    pos: int,
    version: u8,
    count: nat,
    done: Seq<Seq<char>>,
) -> Result<(Seq<Seq<char>>, int), ErrorModel>
    decreases count,
{
    if count == 0 {
        Ok((done, pos))
    } else {
        match name_at(d, pos) {
            Err(e) => Err(e),
            Ok((name, name_len)) => names_at(
                d,
                pos + if version < 3 {
                    crate::utils::padded8(name_len)
                } else {
                    name_len
                },
                version,
                (count - 1) as nat,
                done.push(name),
            ),
        }
    }
}

/// The values at `pos` of `size` bytes each, of the names after those in `done`.
pub open spec fn values_at(
    d: Seq<u8>,
    pos: int,
    size: int,
    names: Seq<Seq<char>>,
    done: Seq<EnumMemberModel>,
) -> Result<(Seq<EnumMemberModel>, int), ErrorModel>
    decreases names.len() - done.len(),
{
    if done.len() >= names.len() {
        Ok((done, pos))
    } else if !crate::utils::fits(d, pos, size) {
        Err(crate::utils::eof(d, pos, size))
    } else {
        values_at(
            d,
            pos + size,
            size,
            names,
            done.push(
                EnumMemberModel {
                    name: names[done.len() as int],
                    value: d.subrange(pos, pos + size),
                },
            ),
        )
    }
}

/// The enumeration over `base`: all names, then all values, from `pos` on.
pub open spec fn parsed_enumeration(
    d: Seq<u8>,
    size: u32,
    version: u8,
    base: DatatypeModel,
    pos: int,
) -> Parsed {
    match names_at(d, pos, version, crate::bytes::u16_at(d, 1) as nat, Seq::empty()) {
        Err(e) => Err(e),
        Ok((names, p)) => match values_at(d, p, base.size() as int, names, Seq::empty()) {
            Err(e) => Err(e),
            Ok((members, end)) => Ok(
                (DatatypeModel::Enumeration { size, base_type: Box::new(base), members }, end),
            ),
        },
    }
}

/// Whether a variable-length type is a string, and then its padding and character set.
pub open spec fn variable_length_kind(d: Seq<u8>) -> Result<
    (bool, Option<StringPadding>, Option<CharacterSet>),
    ErrorModel,
> {
    if d[1] % 16 == 1 {
        match padding_of(d[1] / 16) {
            Err(e) => Err(e),
            Ok(padding) => match charset_of((d[2] % 16) as u8) {
                Err(e) => Err(e),
                Ok(charset) => Ok((true, Some(padding), Some(charset))),
            },
        }
    } else {
        Ok((false, None, None))
    }
}

/// The array type: the number of dimensions and `reserved` bytes, the dimensions, `perm` bytes of
/// permutation for each, the base type.
pub open spec fn parsed_array(d: Seq<u8>, reserved: int, perm: int) -> Parsed
    decreases d.len(), 1int, 0int,
    when d.len() >= 8 && 0 <= reserved && 0 <= perm
{
    if !crate::utils::fits(d, 8, 4) {
        Err(crate::utils::eof(d, 8, 4))
    } else {
        let ndims = d[8] as int;
        let p = 9 + reserved;
        if !crate::utils::fits(d, p, ndims * 4 + ndims * perm) {
            Err(crate::utils::eof(d, p, ndims * 4 + ndims * perm))
        } else {
            let q = p + ndims * 4 + ndims * perm;
            proof {
                assert(ndims * perm >= 0) by (nonlinear_arith)
                    requires
                        ndims >= 0,
                        perm >= 0,
                ;
            }
            match parsed(d.subrange(q, d.len() as int)) {
                Err(e) => Err(e),
                Ok((base, used)) => Ok(
                    (
                        DatatypeModel::Array {
                            base_type: Box::new(base),
                            dimensions: Seq::new(
                                ndims as nat,
                                |i: int| crate::bytes::u32_at(d, p + 4 * i),
                            ),
                        },
                        q + used,
                    ),
                ),
            }
        }
    }
}

// ---- Parsing ----

fn parse_string_padding(val: u8) -> (r: Result<StringPadding, FormatError>)
    ensures
        match r {
            Ok(p) => padding_of(val) == Ok::<StringPadding, ErrorModel>(p),
            Err(e) => padding_of(val) == Err::<StringPadding, ErrorModel>(e.deep_view()),
        },
{
    match val {
        0 => Ok(StringPadding::NullTerminate),
        1 => Ok(StringPadding::NullPad),
        2 => Ok(StringPadding::SpacePad),
        _ => Err(FormatError::InvalidStringPadding(val)),
    }
}

fn parse_string_padding_value(p: &StringPadding) -> (val: u8)
    ensures
        val == padding_code(*p),
{
    match p {
        StringPadding::NullTerminate => 0,
        StringPadding::NullPad => 1,
        StringPadding::SpacePad => 2,
    }
}

fn parse_charset(val: u8) -> (r: Result<CharacterSet, FormatError>)
    ensures
        match r {
            Ok(c) => charset_of(val) == Ok::<CharacterSet, ErrorModel>(c),
            Err(e) => charset_of(val) == Err::<CharacterSet, ErrorModel>(e.deep_view()),
        },
{
    match val {
        0 => Ok(CharacterSet::Ascii),
        1 => Ok(CharacterSet::Utf8),
        _ => Err(FormatError::InvalidCharacterSet(val)),
    }
}

fn parse_charset_value(c: &CharacterSet) -> (val: u8)
    ensures
        val == charset_code(*c),
{
    match c {
        CharacterSet::Ascii => 0,
        CharacterSet::Utf8 => 1,
    }
}

fn parse_byte_order(bf0: u8) -> (order: DatatypeByteOrder)
    ensures
        order == order_of(bf0),
{
    if bf0 % 2 == 0 {
        DatatypeByteOrder::LittleEndian
    } else {
        DatatypeByteOrder::BigEndian
    }
}

/// Read a null-terminated string from `data` starting at `offset`.
/// Returns (string, bytes_consumed including the null terminator).
fn read_null_terminated_string(data: &[u8], offset: usize) -> (r: Result<
    (String, usize),
    FormatError,
>)
    requires
        offset < usize::MAX,
    ensures
        match r {
            Ok((s, n)) => name_at(data@, offset as int) == Ok::<(Seq<char>, int), ErrorModel>(
                (s@, n as int),
            ) && 0 < n && offset + n <= data@.len(),
            Err(e) => name_at(data@, offset as int) == Err::<(Seq<char>, int), ErrorModel>(
                e.deep_view(),
            ),
        },
{
    if offset >= data.len() {
        return Err(FormatError::UnexpectedEof { expected: offset + 1, available: data.len() });
    }
    let end: usize = find_zero(data, offset);
    if end >= data.len() {
        return Err(FormatError::UnexpectedEof { expected: offset + 1, available: data.len() });
    }
    let name = decode_lossy(slice_subrange(data, offset, end));
    Ok((name, end + 1 - offset))
}

/// Determine how many bytes are needed to encode `compound_size` as a byte offset (v3).
fn offset_bytes_for_size(compound_size: u32) -> (n: usize)
    ensures
        n == offset_width(compound_size),
{
    if compound_size <= 0xFF {
        1
    } else if compound_size <= 0xFFFF {
        2
    } else {
        4
    }
}

fn parse_bit_offset_and_precision(data: &[u8], pos: &mut usize) -> (r: Result<
    (u16, u16),
    FormatError,
>)
    ensures
        crate::error::outcome(r) == bits_at(data@, *old(pos) as int),
        r is Ok ==> *final(pos) == *old(pos) + 4 && *final(pos) <= data@.len(),
{
    ensure_len(data, *pos, 4)?;
    assert(data.len() == data@.len());
    let bit_offset = order_u16(slice_subrange(data, *pos, *pos + 2));
    let bit_precision = order_u16(slice_subrange(data, *pos + 2, *pos + 4));
    *pos = *pos + 4;
    Ok((bit_offset, bit_precision))
}

/// Read an unsigned integer of 1, 2, 4, or 8 bytes (LE).
fn read_uint(data: &[u8], offset: usize, nbytes: usize) -> (r: Result<u64, FormatError>)
    ensures
        crate::error::outcome(r) == if !crate::utils::fits(data@, offset as int, nbytes as int) {
            Err(crate::utils::eof(data@, offset as int, nbytes as int))
        } else if nbytes == 1 || nbytes == 2 || nbytes == 4 || nbytes == 8 {
            Ok(crate::utils::uint_at(data@, offset as int, nbytes as u8))
        } else {
            Err(crate::utils::eof(data@, offset as int, nbytes as int))
        },
{
    ensure_len(data, offset, nbytes)?;
    assert(data.len() == data@.len());
    let slice = slice_subrange(data, offset, offset + nbytes);
    match nbytes {
        1 => Ok(slice[0] as u64),
        2 => Ok(order_u16(slice) as u64),
        4 => Ok(order_u32(slice) as u64),
        8 => {
            let v: u64 = order_u64(slice);
            assert(crate::bytes::u32_at(slice@, 4) == crate::bytes::u32_at(data@, offset + 4));
            Ok(v)
        },
        _ => {
            Err(
                FormatError::UnexpectedEof { expected: offset + nbytes, available: data.len() },
            )
        },
    }
}

/// What `parse` promises: the datatype at the front of the bytes, or the error.
pub open spec fn parse_result(d: Seq<u8>, r: Result<(Datatype, usize), FormatError>) -> bool {
    match r {
        Ok((t, n)) => parsed(d) == Ok::<(DatatypeModel, int), ErrorModel>((t.model(), n as int)),
        Err(e) => parsed(d) == Err::<(DatatypeModel, int), ErrorModel>(e.deep_view()),
    }
}

impl Datatype {
    /// Parse a datatype message from raw bytes.
    ///
    /// Returns `(Datatype, bytes_consumed)` for recursive parsing.
    pub fn parse(data: &[u8]) -> (r: Result<(Self, usize), FormatError>)
        ensures
            parse_result(data@, r),
            r matches Ok((_, n)) ==> n <= data@.len() + 7,
        decreases data@.len(), 3int,
    {
        let len: usize = byte_len(data);
        ensure_len(data, 0, 8)?;
        let class_id = data[0] % 16;
        let version = data[0] / 16;
        let bf0 = data[1];
        let size = order_u32(slice_subrange(data, 4, 8));
        let mut pos: usize = 8;
        match class_id {
            CLASS_ID_FIXED_POINT => {
                let byte_order = parse_byte_order(bf0);
                let signed = bf0 / 8 % 2 == 1;
                let (bit_offset, bit_precision) = parse_bit_offset_and_precision(data, &mut pos)?;
                Ok(
                    (
                        Datatype::FixedPoint {
                            size,
                            byte_order,
                            signed,
                            bit_offset,
                            bit_precision,
                        },
                        pos,
                    ),
                )
            },
            CLASS_ID_FLOATING_POINT => {
                ensure_len(data, pos, 12)?;
                let byte_order = if bf0 / 64 % 2 == 1 {
                    DatatypeByteOrder::Vax
                } else {
                    parse_byte_order(bf0)
                };
                let (bit_offset, bit_precision) = parse_bit_offset_and_precision(data, &mut pos)?;
                let exponent_location = data[pos];
                let exponent_size = data[pos + 1];
                let mantissa_location = data[pos + 2];
                let mantissa_size = data[pos + 3];
                let exponent_bias = order_u32(slice_subrange(data, pos + 4, pos + 8));
                pos += 8;
                Ok(
                    (
                        Datatype::FloatingPoint {
                            size,
                            byte_order,
                            bit_offset,
                            bit_precision,
                            exponent_location,
                            exponent_size,
                            mantissa_location,
                            mantissa_size,
                            exponent_bias,
                        },
                        pos,
                    ),
                )
            },
            CLASS_ID_TIME => {
                ensure_len(data, pos, 2)?;
                let bit_precision = order_u16(slice_subrange(data, pos, pos + 2));
                pos += 2;
                Ok((Datatype::Time { size, bit_precision }, pos))
            },
            CLASS_ID_STRING => {
                let padding = parse_string_padding(bf0 % 16)?;
                let charset = parse_charset(bf0 / 16)?;
                Ok((Datatype::String { size, padding, charset }, pos))
            },
            CLASS_ID_BIT_FIELD => {
                let byte_order = parse_byte_order(bf0);
                let (bit_offset, bit_precision) = parse_bit_offset_and_precision(data, &mut pos)?;
                Ok(
                    (
                        Datatype::BitField { size, byte_order, bit_offset, bit_precision },
                        pos,
                    ),
                )
            },
            CLASS_ID_OPAQUE => {
                let tag_len: usize = bf0 as usize;
                ensure_len(data, pos, tag_len)?;
                let tag = slice_to_vec(slice_subrange(data, pos, pos + tag_len));
                let padded: usize = pad8(tag_len);
                Ok((Datatype::Opaque { size, tag }, 8 + padded))
            },
            CLASS_ID_COMPOUND => {
                let num_members = order_u16(slice_subrange(data, 1, 3));
                let mut members: Vec<CompoundMember> = Vec::with_capacity(num_members as usize);
                assert(member_models(members@) =~= Seq::<CompoundMemberModel>::empty());
                if version == 3 || version == 4 {
                    let ob: usize = offset_bytes_for_size(size);
                    Datatype::parse_compound_members(
                        data,
                        &mut members,
                        &mut pos,
                        ob,
                        num_members,
                    )?;
                } else if version == 1 || version == 2 {
                    Datatype::parse_old_compound_members(
                        data,
                        &mut members,
                        &mut pos,
                        version,
                        num_members,
                    )?;
                } else {
                    return Err(FormatError::InvalidDatatypeVersion { class: class_id, version });
                }
                proof {
                    lemma_compound_model(size, members);
                }
                Ok((Datatype::Compound { size, members }, pos))
            },
            CLASS_ID_REFERENCE => {
                let ref_type = match bf0 % 16 {
                    0 => ReferenceType::Object,
                    1 => ReferenceType::DatasetRegion,
                    other => return Err(FormatError::InvalidReferenceType(other)),
                };
                Ok((Datatype::Reference { size, ref_type }, pos))
            },
            CLASS_ID_ENUMERATION => {
                let num_members = order_u16(slice_subrange(data, 1, 3));
                let (base_type, base_consumed) = Datatype::parse(
                    slice_subrange(data, pos, len),
                )?;
                pos += base_consumed;
                let (members, end) = Datatype::parse_enum_members(
                    data,
                    pos,
                    version,
                    base_type.type_size(),
                    num_members,
                )?;
                Ok(
                    (
                        Datatype::Enumeration { size, base_type: Box::new(base_type), members },
                        end,
                    ),
                )
            },
            CLASS_ID_VARIABLE_LENGTH => {
                let is_string = bf0 % 16 == 1;
                let padding = if is_string {
                    Some(parse_string_padding(bf0 / 16)?)
                } else {
                    None
                };
                let charset = if is_string {
                    Some(parse_charset(data[2] % 16)?)
                } else {
                    None
                };
                let (base_type, consumed) = Datatype::parse(slice_subrange(data, pos, len))?;
                pos += consumed;
                Ok(
                    (
                        Datatype::VariableLength {
                            is_string,
                            padding,
                            charset,
                            base_type: Box::new(base_type),
                        },
                        pos,
                    ),
                )
            },
            CLASS_ID_ARRAY => {
                if version == 2 {
                    Datatype::parse_array(data, 3, 4)
                } else if version == 3 {
                    Datatype::parse_array(data, 0, 0)
                } else {
                    Err(FormatError::InvalidDatatypeVersion { class: class_id, version })
                }
            },
            CLASS_ID_COMPLEX => {
                let num_members = order_u16(slice_subrange(data, 1, 3));
                let ob: usize = offset_bytes_for_size(size);
                let mut members: Vec<CompoundMember> = Vec::with_capacity(num_members as usize);
                assert(member_models(members@) =~= Seq::<CompoundMemberModel>::empty());
                Datatype::parse_compound_members(data, &mut members, &mut pos, ob, num_members)?;
                proof {
                    lemma_compound_model(size, members);
                }
                Ok((Datatype::Compound { size, members }, pos))
            },
            _ => Err(FormatError::InvalidDatatypeClass(class_id)),
        }
    }

    /// Parse compound member entries: name, byte_offset, and nested datatype.
    fn parse_compound_members(
        data: &[u8],
        members: &mut Vec<CompoundMember>,
        pos: &mut usize,
        ob: usize,
        num_members: u16,
    ) -> (r: Result<(), FormatError>)
        requires
            0 < *old(pos) <= data@.len(),
            ob == 1 || ob == 2 || ob == 4,
        ensures
            match r {
                Ok(()) => members_at(
                    data@,
                    *old(pos) as int,
                    ob as int,
                    num_members as nat,
                    member_models(old(members)@),
                ) == Ok::<(Seq<CompoundMemberModel>, int), ErrorModel>(
                    (member_models(final(members)@), *final(pos) as int),
                ) && *final(pos) <= data@.len() + 7,
                Err(e) => members_at(
                    data@,
                    *old(pos) as int,
                    ob as int,
                    num_members as nat,
                    member_models(old(members)@),
                ) == Err::<(Seq<CompoundMemberModel>, int), ErrorModel>(e.deep_view()),
            },
        decreases data@.len(), 2int,
    {
        let len: usize = byte_len(data);
        let mut left: u16 = num_members;
        let ghost goal = members_at(
            data@,
            *pos as int,
            ob as int,
            num_members as nat,
            member_models(members@),
        );
        while left > 0
            invariant
                len == data@.len(),
                len <= isize::MAX,
                0 < *pos <= len + 7,
                ob == 1 || ob == 2 || ob == 4,
                goal == members_at(
                    data@,
                    *old(pos) as int,
                    ob as int,
                    num_members as nat,
                    member_models(old(members)@),
                ),
                goal == members_at(
                    data@,
                    *pos as int,
                    ob as int,
                    left as nat,
                    member_models(members@),
                ),
            decreases left,
        {
            let ghost before = members@;
            let (name, name_len) = read_null_terminated_string(data, *pos)?;
            let p: usize = *pos + name_len;
            let byte_offset = read_uint(data, p, ob)?;
            let (datatype, consumed) = Datatype::parse(slice_subrange(data, p + ob, len))?;
            *pos = p + ob + consumed;
            members.push(CompoundMember { name, byte_offset, datatype });
            proof {
                assert(member_models(members@) =~= member_models(before).push(
                    members@.last().model(),
                ));
            }
            left -= 1;
        }
        Ok(())
    }

    /// Parse compound member entries of versions 1 and 2.
    fn parse_old_compound_members(
        data: &[u8],
        members: &mut Vec<CompoundMember>,
        pos: &mut usize,
        version: u8,
        num_members: u16,
    ) -> (r: Result<(), FormatError>)
        requires
            0 < *old(pos) <= data@.len(),
        ensures
            match r {
                Ok(()) => old_members_at(
                    data@,
                    *old(pos) as int,
                    version,
                    num_members as nat,
                    member_models(old(members)@),
                ) == Ok::<(Seq<CompoundMemberModel>, int), ErrorModel>(
                    (member_models(final(members)@), *final(pos) as int),
                ) && *final(pos) <= data@.len() + 7,
                Err(e) => old_members_at(
                    data@,
                    *old(pos) as int,
                    version,
                    num_members as nat,
                    member_models(old(members)@),
                ) == Err::<(Seq<CompoundMemberModel>, int), ErrorModel>(e.deep_view()),
            },
        decreases data@.len(), 2int,
    {
        let len: usize = byte_len(data);
        let mut left: u16 = num_members;
        let ghost goal = old_members_at(
            data@,
            *pos as int,
            version,
            num_members as nat,
            member_models(members@),
        );
        while left > 0
            invariant
                len == data@.len(),
                len <= isize::MAX,
                0 < *pos <= len + 7,
                goal == old_members_at(
                    data@,
                    *old(pos) as int,
                    version,
                    num_members as nat,
                    member_models(old(members)@),
                ),
                goal == old_members_at(
                    data@,
                    *pos as int,
                    version,
                    left as nat,
                    member_models(members@),
                ),
            decreases left,
        {
            let ghost before = members@;
            let (name, name_len) = read_null_terminated_string(data, *pos)?;
            let p: usize = if version == 1 {
                *pos + pad8(name_len)
            } else {
                *pos + name_len
            };
            ensure_len(data, p, 4)?;
            let byte_offset = order_u32(slice_subrange(data, p, p + 4)) as u64;
            ensure_len(data, p + 4, 24)?;
            let (datatype, consumed) = Datatype::parse(slice_subrange(data, p + 28, len))?;
            *pos = p + 28 + consumed;
            members.push(CompoundMember { name, byte_offset, datatype });
            proof {
                assert(member_models(members@) =~= member_models(before).push(
                    members@.last().model(),
                ));
            }
            left -= 1;
        }
        Ok(())
    }

    /// Parse the names and the values of an enumeration, which follow its base type.
    fn parse_enum_members(
        data: &[u8],
        start: usize,
        version: u8,
        base_size: u32,
        num_members: u16,
    ) -> (r: Result<(Vec<EnumMember>, usize), FormatError>)
        requires
            start <= data@.len() + 7,
        ensures
            ({
                let names = names_at(
                    data@,
                    start as int,
                    version,
                    num_members as nat,
                    Seq::empty(),
                );
                match r {
                    Ok((members, end)) => names matches Ok((ns, p)) && values_at(
                        data@,
                        p,
                        base_size as int,
                        ns,
                        Seq::empty(),
                    ) == Ok::<(Seq<EnumMemberModel>, int), ErrorModel>(
                        (enum_models(members@), end as int),
                    ) && end <= data@.len() + 7,
                    Err(e) => match names {
                        Err(f) => f == e.deep_view(),
                        Ok((ns, p)) => values_at(data@, p, base_size as int, ns, Seq::empty())
                            == Err::<(Seq<EnumMemberModel>, int), ErrorModel>(e.deep_view()),
                    },
                }
            }),
    {
        let len: usize = byte_len(data);
        let mut pos: usize = start;
        let mut names: Vec<String> = Vec::with_capacity(num_members as usize);
        let mut left: u16 = num_members;
        assert(names.deep_view() =~= Seq::<Seq<char>>::empty());
        while left > 0
            invariant
                len == data@.len(),
                len <= isize::MAX,
                pos <= len + 7,
                names_at(data@, start as int, version, num_members as nat, Seq::empty())
                    == names_at(data@, pos as int, version, left as nat, names.deep_view()),
            decreases left,
        {
            let ghost before = names.deep_view();
            let (name, name_len) = read_null_terminated_string(data, pos)?;
            if version < 3 {
                pos += pad8(name_len);
            } else {
                pos += name_len;
            }
            names.push(name);
            assert(names.deep_view() =~= before.push(name@));
            left -= 1;
        }
        let size: usize = base_size as usize;
        let ghost first = pos as int;
        let mut members: Vec<EnumMember> = Vec::with_capacity(num_members as usize);
        assert(enum_models(members@) =~= Seq::<EnumMemberModel>::empty());
        while members.len() < names.len()
            invariant
                len == data@.len(),
                len <= isize::MAX,
                pos <= len + 7,
                size == base_size,
                members@.len() <= names@.len(),
                names_at(data@, start as int, version, num_members as nat, Seq::empty())
                    == Ok::<(Seq<Seq<char>>, int), ErrorModel>((names.deep_view(), first)),
                values_at(data@, first, base_size as int, names.deep_view(), Seq::empty())
                    == values_at(
                    data@,
                    pos as int,
                    base_size as int,
                    names.deep_view(),
                    enum_models(members@),
                ),
            decreases names@.len() - members@.len(),
        {
            let ghost before = members@;
            ensure_len(data, pos, size)?;
            let value = slice_to_vec(slice_subrange(data, pos, pos + size));
            pos += size;
            let name = names[members.len()].clone();
            members.push(EnumMember { name, value });
            assert(enum_models(members@) =~= enum_models(before).push(members@.last().model()));
        }
        Ok((members, pos))
    }

    /// Parse the dimensions and the base type of an array.
    fn parse_array(data: &[u8], skip_reserved: usize, skip_perm: usize) -> (r: Result<
        (Datatype, usize),
        FormatError,
    >)
        requires
            data@.len() >= 8,
            skip_reserved <= 3,
            skip_perm <= 4,
        ensures
            match r {
                Ok((t, n)) => parsed_array(data@, skip_reserved as int, skip_perm as int)
                    == Ok::<(DatatypeModel, int), ErrorModel>((t.model(), n as int)) && n
                    <= data@.len() + 7,
                Err(e) => parsed_array(data@, skip_reserved as int, skip_perm as int)
                    == Err::<(DatatypeModel, int), ErrorModel>(e.deep_view()),
            },
        decreases data@.len(), 2int,
    {
        let len: usize = byte_len(data);
        ensure_len(data, 8, 4)?;
        let ndims: usize = data[8] as usize;
        let start: usize = 9 + skip_reserved;
        assert(ndims * skip_perm <= 255 * 4) by (nonlinear_arith)
            requires
                0 <= ndims <= 255,
                0 <= skip_perm <= 4,
        ;
        let needed: usize = ndims * 4 + ndims * skip_perm;
        ensure_len(data, start, needed)?;
        let mut dimensions: Vec<u32> = Vec::with_capacity(ndims);
        let mut i: usize = 0;
        while i < ndims
            invariant
                i <= ndims <= 255,
                start + ndims * 4 <= len == data@.len(),
                dimensions@ == Seq::new(
                    i as nat,
                    |k: int| crate::bytes::u32_at(data@, start + 4 * k),
                ),
            decreases ndims - i,
        {
            let p: usize = start + 4 * i;
            let dim: u32 = order_u32(slice_subrange(data, p, p + 4));
            dimensions.push(dim);
            i += 1;
            assert(dimensions@ =~= Seq::new(
                i as nat,
                |k: int| crate::bytes::u32_at(data@, start + 4 * k),
            ));
        }
        let pos: usize = start + needed;
        let (base_type, consumed) = Datatype::parse(slice_subrange(data, pos, len))?;
        Ok((Datatype::Array { base_type: Box::new(base_type), dimensions }, pos + consumed))
    }

    /// Return the size in bytes of one element of this type.
    pub fn type_size(&self) -> (n: u32)
        ensures
            n == self.model().size(),
        decreases self,
    {
        match self {
            Datatype::FixedPoint { size, .. } => *size,
            Datatype::FloatingPoint { size, .. } => *size,
            Datatype::Time { size, .. } => *size,
            Datatype::String { size, .. } => *size,
            Datatype::BitField { size, .. } => *size,
            Datatype::Opaque { size, .. } => *size,
            Datatype::Compound { size, .. } => *size,
            Datatype::Reference { size, .. } => *size,
            Datatype::Enumeration { size, .. } => *size,
            Datatype::VariableLength { .. } => 16,
            Datatype::Array { base_type, dimensions } => {
                let mut count: u32 = 1;
                let mut i: usize = 0;
                while i < dimensions.len()
                    invariant
                        i <= dimensions@.len(),
                        count == saturating_count(dimensions@, i as int),
                    decreases dimensions@.len() - i,
                {
                    count = saturating_mul(count, dimensions[i]);
                    i += 1;
                }
                saturating_mul(base_type.type_size(), count)
            },
        }
    }

    /// Return the name of this type.
    pub fn class_name(&self) -> (name: &'static str)
        ensures
            name == self.model().class_name(),
    {
        match self {
            Datatype::FixedPoint { .. } => "FixedPoint",
            Datatype::FloatingPoint { .. } => "FloatingPoint",
            Datatype::String { .. } => "String",
            Datatype::Time { .. } => "Time",
            Datatype::BitField { .. } => "BitField",
            Datatype::Opaque { .. } => "Opaque",
            Datatype::Compound { .. } => "Compound",
            Datatype::Reference { .. } => "Reference",
            Datatype::Enumeration { .. } => "Enumeration",
            Datatype::VariableLength { .. } => "VariableLength",
            Datatype::Array { .. } => "Array",
        }
    }

    /// Return the byte order of this type.
    pub fn byte_order(&self) -> (order: DatatypeByteOrder)
        ensures
            order == self.model().order(),
    {
        match self {
            Datatype::FixedPoint { byte_order, .. } => *byte_order,
            Datatype::FloatingPoint { byte_order, .. } => *byte_order,
            Datatype::BitField { byte_order, .. } => *byte_order,
            _ => DatatypeByteOrder::LittleEndian,
        }
    }
}

fn saturating_mul(a: u32, b: u32) -> (c: u32)
    ensures
        c == saturating_product(a, b),
{
    match a.checked_mul(b) {
        Some(c) => c,
        None => u32::MAX,
    }
}

// ---- Serialization ----

/// The eight bytes in front of every datatype.
pub open spec fn header_bytes(
    class: u8,
    version: u8,
    bf0: u8,
    bf1: u8,
    bf2: u8,
    size: u32,
) -> Seq<u8> {
    seq![(class % 16 + version % 16 * 16) as u8, bf0, bf1, bf2] + crate::bytes::le_bytes(
        size as nat,
        4,
    )
}

/// The bytes of `name` with its terminator.
pub open spec fn name_bytes(name: Seq<char>) -> Seq<u8> {
    vstd::utf8::encode_utf8(name).push(0)
}

/// The bytes of the datatype message of `m`: the header, and the properties of its class.
pub open spec fn encoded(m: DatatypeModel) -> Seq<u8>
    decreases m, 0int,
{
    match m {
        DatatypeModel::FixedPoint { size, byte_order, signed, bit_offset, bit_precision } =>
            header_bytes(
            CLASS_ID_FIXED_POINT,
            1,
            fixed_point_flags(byte_order, signed),
            0,
            0,
            size,
        ) + crate::bytes::le_bytes(bit_offset as nat, 2) + crate::bytes::le_bytes(
            bit_precision as nat,
            2,
        ),
        DatatypeModel::FloatingPoint {
            size,
            byte_order,
            bit_offset,
            bit_precision,
            exponent_location,
            exponent_size,
            mantissa_location,
            mantissa_size,
            exponent_bias,
        } => header_bytes(CLASS_ID_FLOATING_POINT, 1, float_flags(byte_order), 0x3f, 0, size)
            + crate::bytes::le_bytes(bit_offset as nat, 2) + crate::bytes::le_bytes(
            bit_precision as nat,
            2,
        ) + seq![exponent_location, exponent_size, mantissa_location, mantissa_size]
            + crate::bytes::le_bytes(exponent_bias as nat, 4),
        DatatypeModel::String { size, padding, charset } => header_bytes(
            CLASS_ID_STRING,
            1,
            (padding_code(padding) + 16 * charset_code(charset)) as u8,
            0,
            0,
            size,
        ),
        DatatypeModel::VariableLength { is_string, padding, charset, base_type } => header_bytes(
            CLASS_ID_VARIABLE_LENGTH,
            1,
            variable_length_flags(is_string, padding),
            charset_flags(is_string, charset),
            0,
            16,
        ) + encoded(*base_type),
        DatatypeModel::Compound { size, members } => header_bytes(
            CLASS_ID_COMPOUND,
            3,
            (members.len() as u16 % 256) as u8,
            (members.len() as u16 / 256) as u8,
            0,
            size,
        ) + members_encoded(members, offset_width(size), 0),
        DatatypeModel::Enumeration { size, base_type, members } => header_bytes(
            CLASS_ID_ENUMERATION,
            3,
            (members.len() as u16 % 256) as u8,
            (members.len() as u16 / 256) as u8,
            0,
            size,
        ) + encoded(*base_type) + names_encoded(members, 0) + values_encoded(members, 0),
        DatatypeModel::Array { base_type, dimensions } => header_bytes(
            CLASS_ID_ARRAY,
            3,
            0,
            0,
            0,
            m.size(),
        ).push(dimensions.len() as u8) + dimensions_encoded(dimensions, 0) + encoded(*base_type),
        DatatypeModel::Time { size, bit_precision } => header_bytes(CLASS_ID_TIME, 1, 0, 0, 0, size)
            + crate::bytes::le_bytes(bit_precision as nat, 2),
        DatatypeModel::BitField { size, byte_order, bit_offset, bit_precision } => header_bytes(
            CLASS_ID_BIT_FIELD,
            1,
            fixed_point_flags(byte_order, false),
            0,
            0,
            size,
        ) + crate::bytes::le_bytes(bit_offset as nat, 2) + crate::bytes::le_bytes(
            bit_precision as nat,
            2,
        ),
        DatatypeModel::Opaque { size, tag } => header_bytes(
            CLASS_ID_OPAQUE,
            1,
            tag.len() as u8,
            0,
            0,
            size,
        ) + tag + tag_padding(tag.len()),
        DatatypeModel::Reference { size, ref_type } => header_bytes(
            CLASS_ID_REFERENCE,
            1,
            reference_code(ref_type),
            0,
            0,
            size,
        ),
    }
}

/// The zeros that fill a tag of `n` bytes up to a multiple of eight.
pub open spec fn tag_padding(n: nat) -> Seq<u8> {
    Seq::new((crate::utils::padded8(n as int) - n) as nat, |i: int| 0u8)
}

/// The number of a reference type.
pub open spec fn reference_code(ref_type: ReferenceType) -> u8 {
    match ref_type {
        ReferenceType::Object => 0,
        ReferenceType::DatasetRegion => 1,
    }
}

/// The bit field of a fixed-point type or of a bit field type.
pub open spec fn fixed_point_flags(byte_order: DatatypeByteOrder, signed: bool) -> u8 {
    ((if byte_order == DatatypeByteOrder::BigEndian {
        1int
    } else {
        0
    }) + (if signed {
        8int
    } else {
        0
    })) as u8
}

/// The bit field of a floating-point type: the sign location, and the byte order.
pub open spec fn float_flags(byte_order: DatatypeByteOrder) -> u8 {
    match byte_order {
        DatatypeByteOrder::LittleEndian => 0x20,
        DatatypeByteOrder::BigEndian => 0x21,
        DatatypeByteOrder::Vax => 0x60,
    }
}

/// The first byte of the bit field of a variable-length type.
pub open spec fn variable_length_flags(is_string: bool, padding: Option<StringPadding>) -> u8 {
    if is_string {
        match padding {
            Some(p) => (1 + 16 * padding_code(p)) as u8,
            None => 1,
        }
    } else {
        0
    }
}

/// The second byte of the bit field of a variable-length type.
pub open spec fn charset_flags(is_string: bool, charset: Option<CharacterSet>) -> u8 {
    if is_string {
        match charset {
            Some(c) => charset_code(c),
            None => 0,
        }
    } else {
        0
    }
}

/// The members from `k` on: name, offset of `ob` bytes, datatype.
pub open spec fn members_encoded(ms: Seq<CompoundMemberModel>, ob: int, k: int) -> Seq<u8>
    decreases ms, ms.len() - k,
{
    if 0 <= k < ms.len() {
        name_bytes(ms[k].name) + crate::bytes::le_bytes(ms[k].byte_offset as nat, ob as nat)
            + encoded(ms[k].datatype) + members_encoded(ms, ob, k + 1)
    } else {
        Seq::empty()
    }
}

/// The names of the members from `k` on.
pub open spec fn names_encoded(ms: Seq<EnumMemberModel>, k: int) -> Seq<u8>
    decreases ms.len() - k,
{
    if 0 <= k < ms.len() {
        name_bytes(ms[k].name) + names_encoded(ms, k + 1)
    } else {
        Seq::empty()
    }
}

/// The values of the members from `k` on.
pub open spec fn values_encoded(ms: Seq<EnumMemberModel>, k: int) -> Seq<u8>
    decreases ms.len() - k,
{
    if 0 <= k < ms.len() {
        ms[k].value + values_encoded(ms, k + 1)
    } else {
        Seq::empty()
    }
}

/// The dimensions from `k` on.
pub open spec fn dimensions_encoded(dims: Seq<u32>, k: int) -> Seq<u8>
    decreases dims.len() - k,
{
    if 0 <= k < dims.len() {
        crate::bytes::le_bytes(dims[k] as nat, 4) + dimensions_encoded(dims, k + 1)
    } else {
        Seq::empty()
    }
}

fn put_name(buf: &mut Vec<u8>, name: &String)
    ensures
        final(buf)@ == old(buf)@ + name_bytes(name@),
{
    put_slice(buf, name.as_str().as_bytes());
    buf.push(0);
    assert(buf@ =~= old(buf)@ + name_bytes(name@));
}

impl Datatype {
    /// The eight bytes in front of every datatype message.
    pub fn build_header(class: u8, version: u8, bf: [u8; 3], size: u32) -> (buf: Vec<u8>)
        ensures
            buf@ == header_bytes(class, version, bf@[0], bf@[1], bf@[2], size),
    {
        let mut buf: Vec<u8> = Vec::with_capacity(8);
        buf.push(class % 16 + version % 16 * 16);
        buf.push(bf[0]);
        buf.push(bf[1]);
        buf.push(bf[2]);
        put_u32(&mut buf, size);
        assert(buf@ =~= header_bytes(class, version, bf@[0], bf@[1], bf@[2], size));
        buf
    }

    /// Serialize datatype to HDF5 message bytes.
    pub fn serialize(&self) -> (bytes: Vec<u8>)
        ensures
            bytes@ == encoded(self.model()),
        decreases self,
    {
        match self {
            Datatype::FixedPoint { size, byte_order, signed, bit_offset, bit_precision } => {
                let mut bf0: u8 = 0;
                if matches!(byte_order, DatatypeByteOrder::BigEndian) {
                    bf0 += 0x01;
                }
                if *signed {
                    bf0 += 0x08;
                }
                let mut buf = Datatype::build_header(CLASS_ID_FIXED_POINT, 1, [bf0, 0, 0], *size);
                put_u16(&mut buf, *bit_offset);
                put_u16(&mut buf, *bit_precision);
                buf
            },
            Datatype::FloatingPoint {
                size,
                byte_order,
                bit_offset,
                bit_precision,
                exponent_location,
                exponent_size,
                mantissa_location,
                mantissa_size,
                exponent_bias,
            } => {
                // bit 5: sign location bit (standard IEEE 754)
                let bf0: u8 = match byte_order {
                    DatatypeByteOrder::LittleEndian => 0x20,
                    DatatypeByteOrder::BigEndian => 0x21,
                    DatatypeByteOrder::Vax => 0x60,
                };
                let mut buf = Datatype::build_header(
                    CLASS_ID_FLOATING_POINT,
                    1,
                    [bf0, 0x3f, 0],
                    *size,
                );
                put_u16(&mut buf, *bit_offset);
                put_u16(&mut buf, *bit_precision);
                let ghost mid = buf@;
                buf.push(*exponent_location);
                buf.push(*exponent_size);
                buf.push(*mantissa_location);
                buf.push(*mantissa_size);
                assert(buf@ =~= mid + seq![
                    *exponent_location,
                    *exponent_size,
                    *mantissa_location,
                    *mantissa_size,
                ]);
                put_u32(&mut buf, *exponent_bias);
                buf
            },
            Datatype::String { size, padding, charset } => {
                let pad_val: u8 = parse_string_padding_value(padding);
                let cs_val: u8 = parse_charset_value(charset);
                Datatype::build_header(CLASS_ID_STRING, 1, [pad_val + 16 * cs_val, 0, 0], *size)
            },
            Datatype::VariableLength { is_string, padding, charset, base_type } => {
                let bf0: u8 = if *is_string {
                    match padding {
                        Some(p) => 1 + 16 * parse_string_padding_value(p),
                        None => 1,
                    }
                } else {
                    0
                };
                let bf1: u8 = if *is_string {
                    match charset {
                        Some(c) => parse_charset_value(c),
                        None => 0,
                    }
                } else {
                    0
                };
                let mut buf = Datatype::build_header(
                    CLASS_ID_VARIABLE_LENGTH,
                    1,
                    [bf0, bf1, 0],
                    16,
                );
                put_slice(&mut buf, base_type.serialize().as_slice());
                buf
            },
            Datatype::Compound { size, members } => {
                let num: u16 = members.len() as u16;
                let mut buf = Datatype::build_header(
                    CLASS_ID_COMPOUND,
                    3,
                    [(num % 256) as u8, (num / 256) as u8, 0],
                    *size,
                );
                proof {
                    lemma_compound_model(*size, *members);
                }
                put_members(&mut buf, members, offset_bytes_for_size(*size));
                buf
            },
            Datatype::Enumeration { size, base_type, members } => {
                let num: u16 = members.len() as u16;
                let mut buf = Datatype::build_header(
                    CLASS_ID_ENUMERATION,
                    3,
                    [(num % 256) as u8, (num / 256) as u8, 0],
                    *size,
                );
                put_slice(&mut buf, base_type.serialize().as_slice());
                put_enum_names(&mut buf, members);
                put_enum_values(&mut buf, members);
                buf
            },
            Datatype::Array { base_type, dimensions } => {
                let mut buf = Datatype::build_header(
                    CLASS_ID_ARRAY,
                    3,
                    [0, 0, 0],
                    self.type_size(),
                );
                buf.push(dimensions.len() as u8);
                put_dimensions(&mut buf, dimensions);
                put_slice(&mut buf, base_type.serialize().as_slice());
                buf
            },
            Datatype::Time { size, bit_precision } => {
                let mut buf = Datatype::build_header(CLASS_ID_TIME, 1, [0, 0, 0], *size);
                put_u16(&mut buf, *bit_precision);
                buf
            },
            Datatype::BitField { size, byte_order, bit_offset, bit_precision } => {
                let bf0: u8 = if matches!(byte_order, DatatypeByteOrder::BigEndian) {
                    1
                } else {
                    0
                };
                let mut buf = Datatype::build_header(CLASS_ID_BIT_FIELD, 1, [bf0, 0, 0], *size);
                put_u16(&mut buf, *bit_offset);
                put_u16(&mut buf, *bit_precision);
                buf
            },
            Datatype::Opaque { size, tag } => {
                let len: usize = byte_len(tag.as_slice());
                let mut buf = Datatype::build_header(CLASS_ID_OPAQUE, 1, [len as u8, 0, 0], *size);
                put_slice(&mut buf, tag.as_slice());
                let ghost mid = buf@;
                put_fill(&mut buf, 0, pad8(len) - len);
                assert(buf@ =~= mid + tag_padding(tag@.len()));
                buf
            },
            Datatype::Reference { size, ref_type } => {
                let bf0: u8 = match ref_type {
                    ReferenceType::Object => 0,
                    ReferenceType::DatasetRegion => 1,
                };
                Datatype::build_header(CLASS_ID_REFERENCE, 1, [bf0, 0, 0], *size)
            },
        }
    }
}

fn put_members(buf: &mut Vec<u8>, members: &Vec<CompoundMember>, ob: usize)
    ensures
        final(buf)@ == old(buf)@ + members_encoded(member_models(members@), ob as int, 0),
    decreases members,
{
    let ghost ms = member_models(members@);
    let ghost start = buf@;
    let mut i: usize = 0;
    while i < members.len()
        invariant
            i <= members@.len(),
            ms == member_models(members@),
            buf@ + members_encoded(ms, ob as int, i as int) =~= start + members_encoded(
                ms,
                ob as int,
                0,
            ),
        decreases members@.len() - i,
    {
        let ghost before = buf@;
        let member = &members[i];
        put_name(buf, &member.name);
        put_le(buf, member.byte_offset, ob);
        let inner = member.datatype.serialize();
        put_slice(buf, inner.as_slice());
        proof {
            assert(ms[i as int] == member.model());
            assert(buf@ + members_encoded(ms, ob as int, i + 1) =~= before + (name_bytes(
                member.name@,
            ) + crate::bytes::le_bytes(member.byte_offset as nat, ob as nat) + encoded(
                member.datatype.model(),
            ) + members_encoded(ms, ob as int, i + 1)));
        }
        i += 1;
    }
    assert(buf@ + members_encoded(ms, ob as int, i as int) =~= buf@);
}

fn put_enum_names(buf: &mut Vec<u8>, members: &Vec<EnumMember>)
    ensures
        final(buf)@ == old(buf)@ + names_encoded(enum_models(members@), 0),
{
    let ghost ms = enum_models(members@);
    let ghost start = buf@;
    let mut i: usize = 0;
    while i < members.len()
        invariant
            i <= members@.len(),
            ms == enum_models(members@),
            buf@ + names_encoded(ms, i as int) =~= start + names_encoded(ms, 0),
        decreases members@.len() - i,
    {
        let ghost before = buf@;
        put_name(buf, &members[i].name);
        proof {
            assert(buf@ + names_encoded(ms, i + 1) =~= before + (name_bytes(ms[i as int].name)
                + names_encoded(ms, i + 1)));
        }
        i += 1;
    }
    assert(buf@ + names_encoded(ms, i as int) =~= buf@);
}

fn put_enum_values(buf: &mut Vec<u8>, members: &Vec<EnumMember>)
    ensures
        final(buf)@ == old(buf)@ + values_encoded(enum_models(members@), 0),
{
    let ghost ms = enum_models(members@);
    let ghost start = buf@;
    let mut i: usize = 0;
    while i < members.len()
        invariant
            i <= members@.len(),
            ms == enum_models(members@),
            buf@ + values_encoded(ms, i as int) =~= start + values_encoded(ms, 0),
        decreases members@.len() - i,
    {
        let ghost before = buf@;
        put_slice(buf, members[i].value.as_slice());
        proof {
            assert(buf@ + values_encoded(ms, i + 1) =~= before + (ms[i as int].value
                + values_encoded(ms, i + 1)));
        }
        i += 1;
    }
    assert(buf@ + values_encoded(ms, i as int) =~= buf@);
}

fn put_dimensions(buf: &mut Vec<u8>, dims: &Vec<u32>)
    ensures
        final(buf)@ == old(buf)@ + dimensions_encoded(dims@, 0),
{
    let ghost start = buf@;
    let mut i: usize = 0;
    while i < dims.len()
        invariant
            i <= dims@.len(),
            buf@ + dimensions_encoded(dims@, i as int) =~= start + dimensions_encoded(dims@, 0),
        decreases dims@.len() - i,
    {
        let ghost before = buf@;
        put_u32(buf, dims[i]);
        proof {
            assert(buf@ + dimensions_encoded(dims@, i + 1) =~= before + (crate::bytes::le_bytes(
                dims@[i as int] as nat,
                4,
            ) + dimensions_encoded(dims@, i + 1)));
        }
        i += 1;
    }
    assert(buf@ + dimensions_encoded(dims@, i as int) =~= buf@);
}

// ---- What a message gives back ----

/// Whether a name can stand in a message: it holds no zero character.
pub open spec fn is_name(name: Seq<char>) -> bool {
    forall|i: int| 0 <= i < name.len() ==> name[i] != '\0'
}

/// Whether the message of `m` holds all of `m`: what it counts fits the counters, and the fields
/// that the message leaves out have their default values.
pub open spec fn representable(m: DatatypeModel) -> bool
    decreases m,
{
    match m {
        DatatypeModel::FixedPoint { byte_order, .. } => byte_order != DatatypeByteOrder::Vax,
        DatatypeModel::FloatingPoint { .. } => true,
        DatatypeModel::String { .. } => true,
        DatatypeModel::VariableLength { is_string, padding, charset, base_type } => {
            &&& is_string <==> padding is Some
            &&& is_string <==> charset is Some
            &&& representable(*base_type)
        },
        DatatypeModel::Compound { size, members } => {
            &&& members.len() <= 0xFFFF
            &&& forall|i: int|
                0 <= i < members.len() ==> {
                    &&& is_name((#[trigger] members[i]).name)
                    &&& members[i].byte_offset < crate::bytes::pow256(offset_width(size) as nat)
                    &&& representable(members[i].datatype)
                }
        },
        DatatypeModel::Enumeration { base_type, members, .. } => {
            &&& members.len() <= 0xFFFF
            &&& representable(*base_type)
            &&& forall|i: int|
                0 <= i < members.len() ==> {
                    &&& is_name((#[trigger] members[i]).name)
                    &&& members[i].value.len() == base_type.size()
                }
        },
        DatatypeModel::Array { base_type, dimensions } => {
            &&& dimensions.len() <= 255
            &&& representable(*base_type)
        },
        DatatypeModel::Time { .. } => true,
        DatatypeModel::BitField { byte_order, .. } => byte_order != DatatypeByteOrder::Vax,
        DatatypeModel::Opaque { tag, .. } => tag.len() <= 255,
        DatatypeModel::Reference { .. } => true,
    }
}

proof fn lemma_header(
    d: Seq<u8>,
    class: u8,
    version: u8,
    bf0: u8,
    bf1: u8,
    size: u32,
    rest: Seq<u8>,
)
    requires
        d == header_bytes(class, version, bf0, bf1, 0, size) + rest,
        class < 16,
        version < 16,
    ensures
        d.len() == 8 + rest.len(),
        d[0] % 16 == class,
        d[0] / 16 == version,
        d[1] == bf0,
        d[2] == bf1,
        crate::bytes::u16_at(d, 1) == bf0 + 256 * bf1,
        crate::bytes::u32_at(d, 4) == size,
        d.subrange(8, d.len() as int) == rest,
{
    crate::bytes::lemma_le_bytes_len(size as nat, 4);
    let h = header_bytes(class, version, bf0, bf1, 0, size);
    assert(d.subrange(0, d.len() as int) =~= d);
    crate::bytes::lemma_peel(d, 0, h, rest);
    assert(d[0] == h[0] && d[1] == h[1] && d[2] == h[2]);
    assert(d.subrange(4, 8) =~= crate::bytes::le_bytes(size as nat, 4));
    crate::bytes::lemma_u32_round_trip(d, 4, size);
}

proof fn lemma_name(d: Seq<u8>, pos: int, name: Seq<char>, rest: Seq<u8>)
    requires
        0 <= pos <= d.len(),
        is_name(name),
        d.subrange(pos, d.len() as int) == name_bytes(name) + rest,
    ensures
        name_at(d, pos) == Ok::<(Seq<char>, int), ErrorModel>(
            (name, name_bytes(name).len() as int),
        ),
        pos + name_bytes(name).len() <= d.len(),
        d.subrange(pos + name_bytes(name).len(), d.len() as int) == rest,
{
    let text = vstd::utf8::encode_utf8(name);
    let nb = name_bytes(name);
    crate::bytes::lemma_peel(d, pos, nb, rest);
    crate::text::lemma_no_zero_byte(name);
    crate::text::lemma_text_round_trip(name);
    assert forall|k: int| pos <= k < pos + text.len() implies d[k] != 0 by {
        assert(d.subrange(pos, pos + nb.len())[k - pos] == text[k - pos]);
    }
    assert(d[pos + text.len()] == d.subrange(pos, pos + nb.len())[text.len() as int]);
    crate::text::lemma_zero_from_is(d, pos, pos + text.len());
    assert(d.subrange(pos, pos + text.len()) =~= text) by {
        assert(d.subrange(pos, pos + text.len()) =~= d.subrange(pos, pos + nb.len()).subrange(
            0,
            text.len() as int,
        ));
    }
}

proof fn lemma_member_step(
    d: Seq<u8>,
    pos: int,
    m: CompoundMemberModel,
    ob: int,
    count: nat,
    done: Seq<CompoundMemberModel>,
    rest: Seq<u8>,
)
    requires
        0 < pos <= d.len(),
        0 < count,
        ob == 1 || ob == 2 || ob == 4,
        is_name(m.name),
        m.byte_offset < crate::bytes::pow256(ob as nat),
        d.subrange(pos, d.len() as int) == name_bytes(m.name) + (crate::bytes::le_bytes(
            m.byte_offset as nat,
            ob as nat,
        ) + (encoded(m.datatype) + rest)),
        parsed(encoded(m.datatype) + rest) == Ok::<(DatatypeModel, int), ErrorModel>(
            (m.datatype, encoded(m.datatype).len() as int),
        ),
    ensures
        members_at(d, pos, ob, count, done) == members_at(
            d,
            d.len() - rest.len(),
            ob,
            (count - 1) as nat,
            done.push(m),
        ),
        pos < d.len() - rest.len() <= d.len(),
        d.subrange(d.len() - rest.len(), d.len() as int) == rest,
{
    let le = crate::bytes::le_bytes(m.byte_offset as nat, ob as nat);
    crate::bytes::lemma_le_bytes_len(m.byte_offset as nat, ob as nat);
    lemma_name(d, pos, m.name, le + (encoded(m.datatype) + rest));
    let p = pos + name_bytes(m.name).len();
    crate::bytes::lemma_peel(d, p, le, encoded(m.datatype) + rest);
    crate::utils::lemma_uint_round_trip(d, p, m.byte_offset as nat, ob as u8);
    crate::bytes::lemma_peel(d, p + ob, encoded(m.datatype), rest);
}

#[verifier::spinoff_prover]
#[verifier::rlimit(40)]
proof fn lemma_members(
    d: Seq<u8>,
    pos: int,
    ms: Seq<CompoundMemberModel>,
    ob: int,
    k: int,
    rest: Seq<u8>,
)
    requires
        0 < pos <= d.len(),
        0 <= k <= ms.len(),
        ob == 1 || ob == 2 || ob == 4,
        d.subrange(pos, d.len() as int) == members_encoded(ms, ob, k) + rest,
        forall|i: int|
            0 <= i < ms.len() ==> {
                &&& is_name((#[trigger] ms[i]).name)
                &&& ms[i].byte_offset < crate::bytes::pow256(ob as nat)
                &&& representable(ms[i].datatype)
            },
    ensures
        members_at(d, pos, ob, (ms.len() - k) as nat, ms.take(k)) == Ok::<
            (Seq<CompoundMemberModel>, int),
            ErrorModel,
        >((ms, d.len() - rest.len())),
    decreases ms, ms.len() - k,
{
    if k == ms.len() {
        assert(members_encoded(ms, ob, k) + rest =~= rest);
        assert(ms.take(k) =~= ms);
    } else {
        let m = ms[k];
        let more = members_encoded(ms, ob, k + 1);
        let le = crate::bytes::le_bytes(m.byte_offset as nat, ob as nat);
        assert(members_encoded(ms, ob, k) + rest =~= name_bytes(m.name) + (le + (encoded(
            m.datatype,
        ) + (more + rest))));
        law_datatype_round_trip(m.datatype, more + rest);
        lemma_member_step(d, pos, m, ob, (ms.len() - k) as nat, ms.take(k), more + rest);
        assert(ms.take(k).push(m) =~= ms.take(k + 1));
        lemma_members(d, d.len() - (more + rest).len(), ms, ob, k + 1, rest);
    }
}

proof fn lemma_names(
    d: Seq<u8>,
    pos: int,
    ms: Seq<EnumMemberModel>,
    k: int,
    done: Seq<Seq<char>>,
    rest: Seq<u8>,
)
    requires
        0 <= pos <= d.len(),
        0 <= k <= ms.len(),
        done == Seq::new(k as nat, |i: int| ms[i].name),
        d.subrange(pos, d.len() as int) == names_encoded(ms, k) + rest,
        forall|i: int| 0 <= i < ms.len() ==> is_name((#[trigger] ms[i]).name),
    ensures
        names_at(d, pos, 3, (ms.len() - k) as nat, done) == Ok::<(Seq<Seq<char>>, int), ErrorModel>(
            (Seq::new(ms.len(), |i: int| ms[i].name), d.len() - rest.len()),
        ),
    decreases ms.len() - k,
{
    if k == ms.len() {
        assert(names_encoded(ms, k) + rest =~= rest);
    } else {
        let more = names_encoded(ms, k + 1);
        assert(names_encoded(ms, k) + rest =~= name_bytes(ms[k].name) + (more + rest));
        lemma_name(d, pos, ms[k].name, more + rest);
        assert(done.push(ms[k].name) =~= Seq::new((k + 1) as nat, |i: int| ms[i].name));
        lemma_names(
            d,
            pos + name_bytes(ms[k].name).len(),
            ms,
            k + 1,
            done.push(ms[k].name),
            rest,
        );
    }
}

proof fn lemma_values(
    d: Seq<u8>,
    pos: int,
    size: int,
    ms: Seq<EnumMemberModel>,
    k: int,
    rest: Seq<u8>,
)
    requires
        0 <= pos <= d.len(),
        0 <= k <= ms.len(),
        d.subrange(pos, d.len() as int) == values_encoded(ms, k) + rest,
        forall|i: int| 0 <= i < ms.len() ==> (#[trigger] ms[i]).value.len() == size,
    ensures
        values_at(d, pos, size, Seq::new(ms.len(), |i: int| ms[i].name), ms.take(k)) == Ok::<
            (Seq<EnumMemberModel>, int),
            ErrorModel,
        >((ms, d.len() - rest.len())),
    decreases ms.len() - k,
{
    if k == ms.len() {
        assert(values_encoded(ms, k) + rest =~= rest);
        assert(ms.take(k) =~= ms);
    } else {
        let more = values_encoded(ms, k + 1);
        assert(values_encoded(ms, k) + rest =~= ms[k].value + (more + rest));
        crate::bytes::lemma_peel(d, pos, ms[k].value, more + rest);
        assert(ms.take(k).push(ms[k]) =~= ms.take(k + 1));
        lemma_values(d, pos + size, size, ms, k + 1, rest);
    }
}

proof fn lemma_dimensions(d: Seq<u8>, pos: int, dims: Seq<u32>, k: int, rest: Seq<u8>)
    requires
        0 <= pos <= d.len(),
        0 <= k <= dims.len(),
        d.subrange(pos, d.len() as int) == dimensions_encoded(dims, k) + rest,
    ensures
        pos + 4 * (dims.len() - k) + rest.len() == d.len(),
        d.subrange(d.len() - rest.len(), d.len() as int) == rest,
        forall|i: int|
            k <= i < dims.len() ==> #[trigger] crate::bytes::u32_at(d, pos + 4 * (i - k))
                == dims[i],
    decreases dims.len() - k,
{
    if k == dims.len() {
        assert(dimensions_encoded(dims, k) + rest =~= rest);
    } else {
        let le = crate::bytes::le_bytes(dims[k] as nat, 4);
        crate::bytes::lemma_le_bytes_len(dims[k] as nat, 4);
        let more = dimensions_encoded(dims, k + 1);
        assert(dimensions_encoded(dims, k) + rest =~= le + (more + rest));
        crate::bytes::lemma_peel(d, pos, le, more + rest);
        crate::bytes::lemma_u32_round_trip(d, pos, dims[k]);
        lemma_dimensions(d, pos + 4, dims, k + 1, rest);
        assert forall|i: int| k <= i < dims.len() implies #[trigger] crate::bytes::u32_at(
            d,
            pos + 4 * (i - k),
        ) == dims[i] by {
            if i > k {
                assert(pos + 4 * (i - k) == (pos + 4) + 4 * (i - (k + 1)));
            }
        }
    }
}

proof fn lemma_fixed_point_round_trip(m: DatatypeModel, rest: Seq<u8>)
    requires
        representable(m),
        m is FixedPoint,
    ensures
        parsed(encoded(m) + rest) == Ok::<(DatatypeModel, int), ErrorModel>(
            (m, encoded(m).len() as int),
        ),
{
    let d = encoded(m) + rest;
    if let DatatypeModel::FixedPoint { size, byte_order, signed, bit_offset, bit_precision } = m {
        let a = crate::bytes::le_bytes(bit_offset as nat, 2);
        let b = crate::bytes::le_bytes(bit_precision as nat, 2);
        crate::bytes::lemma_le_bytes_len(bit_offset as nat, 2);
        crate::bytes::lemma_le_bytes_len(bit_precision as nat, 2);
        crate::bytes::lemma_le_bytes_len(size as nat, 4);
        let h = header_bytes(0, 1, fixed_point_flags(byte_order, signed), 0, 0, size);
        assert(d =~= h + (a + (b + rest)));
        lemma_header(
            d,
            0,
            1,
            fixed_point_flags(byte_order, signed),
            0,
            size,
            a + (b + rest),
        );
        crate::bytes::lemma_peel(d, 8, a, b + rest);
        crate::bytes::lemma_peel(d, 10, b, rest);
        crate::bytes::lemma_u16_round_trip(d, 8, bit_offset);
        crate::bytes::lemma_u16_round_trip(d, 10, bit_precision);
    }
}

proof fn lemma_floating_point_round_trip(m: DatatypeModel, rest: Seq<u8>)
    requires
        representable(m),
        m is FloatingPoint,
    ensures
        parsed(encoded(m) + rest) == Ok::<(DatatypeModel, int), ErrorModel>(
            (m, encoded(m).len() as int),
        ),
{
    let d = encoded(m) + rest;
    if let DatatypeModel::FloatingPoint {
        size,
        byte_order,
        bit_offset,
        bit_precision,
        exponent_location,
        exponent_size,
        mantissa_location,
        mantissa_size,
        exponent_bias,
    } = m {
        let a = crate::bytes::le_bytes(bit_offset as nat, 2);
        let b = crate::bytes::le_bytes(bit_precision as nat, 2);
        let c = seq![exponent_location, exponent_size, mantissa_location, mantissa_size];
        let e = crate::bytes::le_bytes(exponent_bias as nat, 4);
        crate::bytes::lemma_le_bytes_len(bit_offset as nat, 2);
        crate::bytes::lemma_le_bytes_len(bit_precision as nat, 2);
        crate::bytes::lemma_le_bytes_len(exponent_bias as nat, 4);
        crate::bytes::lemma_le_bytes_len(size as nat, 4);
        let h = header_bytes(1, 1, float_flags(byte_order), 0x3f, 0, size);
        assert(d =~= h + (a + (b + (c + (e + rest)))));
        lemma_header(
            d,
            1,
            1,
            float_flags(byte_order),
            0x3f,
            size,
            a + (b + (c + (e + rest))),
        );
        crate::bytes::lemma_peel(d, 8, a, b + (c + (e + rest)));
        crate::bytes::lemma_peel(d, 10, b, c + (e + rest));
        crate::bytes::lemma_peel(d, 12, c, e + rest);
        crate::bytes::lemma_peel(d, 16, e, rest);
        crate::bytes::lemma_u16_round_trip(d, 8, bit_offset);
        crate::bytes::lemma_u16_round_trip(d, 10, bit_precision);
        crate::bytes::lemma_u32_round_trip(d, 16, exponent_bias);
        let s = d.subrange(12, 16);
        assert(s[0] == d[12] && s[1] == d[13] && s[2] == d[14] && s[3] == d[15]);
    }
}

proof fn lemma_string_round_trip(m: DatatypeModel, rest: Seq<u8>)
    requires
        representable(m),
        m is String,
    ensures
        parsed(encoded(m) + rest) == Ok::<(DatatypeModel, int), ErrorModel>(
            (m, encoded(m).len() as int),
        ),
{
    let d = encoded(m) + rest;
    if let DatatypeModel::String { size, padding, charset } = m {
        crate::bytes::lemma_le_bytes_len(size as nat, 4);
        lemma_header(
            d,
            CLASS_ID_STRING,
            1,
            (padding_code(padding) + 16 * charset_code(charset)) as u8,
            0,
            size,
            rest,
        );
    }
}

proof fn lemma_time_round_trip(m: DatatypeModel, rest: Seq<u8>)
    requires
        m is Time,
    ensures
        parsed(encoded(m) + rest) == Ok::<(DatatypeModel, int), ErrorModel>(
            (m, encoded(m).len() as int),
        ),
{
    let d = encoded(m) + rest;
    if let DatatypeModel::Time { size, bit_precision } = m {
        let a = crate::bytes::le_bytes(bit_precision as nat, 2);
        crate::bytes::lemma_le_bytes_len(bit_precision as nat, 2);
        crate::bytes::lemma_le_bytes_len(size as nat, 4);
        let h = header_bytes(CLASS_ID_TIME, 1, 0, 0, 0, size);
        assert(d =~= h + (a + rest));
        lemma_header(d, CLASS_ID_TIME, 1, 0, 0, size, a + rest);
        crate::bytes::lemma_peel(d, 8, a, rest);
        crate::bytes::lemma_u16_round_trip(d, 8, bit_precision);
    }
}

proof fn lemma_bit_field_round_trip(m: DatatypeModel, rest: Seq<u8>)
    requires
        representable(m),
        m is BitField,
    ensures
        parsed(encoded(m) + rest) == Ok::<(DatatypeModel, int), ErrorModel>(
            (m, encoded(m).len() as int),
        ),
{
    let d = encoded(m) + rest;
    if let DatatypeModel::BitField { size, byte_order, bit_offset, bit_precision } = m {
        let a = crate::bytes::le_bytes(bit_offset as nat, 2);
        let b = crate::bytes::le_bytes(bit_precision as nat, 2);
        let flags = fixed_point_flags(byte_order, false);
        crate::bytes::lemma_le_bytes_len(bit_offset as nat, 2);
        crate::bytes::lemma_le_bytes_len(bit_precision as nat, 2);
        crate::bytes::lemma_le_bytes_len(size as nat, 4);
        let h = header_bytes(CLASS_ID_BIT_FIELD, 1, flags, 0, 0, size);
        assert(d =~= h + (a + (b + rest)));
        lemma_header(d, CLASS_ID_BIT_FIELD, 1, flags, 0, size, a + (b + rest));
        crate::bytes::lemma_peel(d, 8, a, b + rest);
        crate::bytes::lemma_peel(d, 10, b, rest);
        crate::bytes::lemma_u16_round_trip(d, 8, bit_offset);
        crate::bytes::lemma_u16_round_trip(d, 10, bit_precision);
    }
}

proof fn lemma_opaque_round_trip(m: DatatypeModel, rest: Seq<u8>)
    requires
        representable(m),
        m is Opaque,
    ensures
        parsed(encoded(m) + rest) == Ok::<(DatatypeModel, int), ErrorModel>(
            (m, encoded(m).len() as int),
        ),
{
    let d = encoded(m) + rest;
    if let DatatypeModel::Opaque { size, tag } = m {
        let fill = tag_padding(tag.len());
        crate::bytes::lemma_le_bytes_len(size as nat, 4);
        let h = header_bytes(CLASS_ID_OPAQUE, 1, tag.len() as u8, 0, 0, size);
        assert(d =~= h + (tag + (fill + rest)));
        lemma_header(d, CLASS_ID_OPAQUE, 1, tag.len() as u8, 0, size, tag + (fill + rest));
        crate::bytes::lemma_peel(d, 8, tag, fill + rest);
    }
}

proof fn lemma_reference_round_trip(m: DatatypeModel, rest: Seq<u8>)
    requires
        m is Reference,
    ensures
        parsed(encoded(m) + rest) == Ok::<(DatatypeModel, int), ErrorModel>(
            (m, encoded(m).len() as int),
        ),
{
    let d = encoded(m) + rest;
    if let DatatypeModel::Reference { size, ref_type } = m {
        crate::bytes::lemma_le_bytes_len(size as nat, 4);
        lemma_header(d, CLASS_ID_REFERENCE, 1, reference_code(ref_type), 0, size, rest);
    }
}

proof fn lemma_variable_length_round_trip(m: DatatypeModel, rest: Seq<u8>)
    requires
        representable(m),
        m is VariableLength,
        parsed(encoded(*m->VariableLength_base_type) + (rest)) == Ok::<
            (DatatypeModel, int),
            ErrorModel,
        >((*m->VariableLength_base_type, encoded(*m->VariableLength_base_type).len() as int)),
    ensures
        parsed(encoded(m) + rest) == Ok::<(DatatypeModel, int), ErrorModel>(
            (m, encoded(m).len() as int),
        ),
{
    let d = encoded(m) + rest;
    if let DatatypeModel::VariableLength { is_string, padding, charset, base_type } = m {
        let bf0 = variable_length_flags(is_string, padding);
        let bf1 = charset_flags(is_string, charset);
        crate::bytes::lemma_le_bytes_len(16, 4);
        let h = header_bytes(9, 1, bf0, bf1, 0, 16);
        assert(d =~= h + (encoded(*base_type) + rest));
        lemma_header(d, 9, 1, bf0, bf1, 16, encoded(*base_type) + rest);
    }
}

proof fn lemma_compound_round_trip(m: DatatypeModel, rest: Seq<u8>)
    requires
        representable(m),
        m is Compound,
        forall|d: Seq<u8>|
            d.len() >= 8 && #[trigger] d.subrange(8, d.len() as int) == members_encoded(
                m->Compound_members,
                offset_width(m->Compound_size),
                0,
            ) + rest ==> members_at(
                d,
                8,
                offset_width(m->Compound_size),
                m->Compound_members.len(),
                Seq::empty(),
            ) == Ok::<(Seq<CompoundMemberModel>, int), ErrorModel>(
                (m->Compound_members, d.len() - rest.len()),
            ),
    ensures
        parsed(encoded(m) + rest) == Ok::<(DatatypeModel, int), ErrorModel>(
            (m, encoded(m).len() as int),
        ),
{
    let d = encoded(m) + rest;
    if let DatatypeModel::Compound { size, members } = m {
        let n = members.len() as u16;
        let ob = offset_width(size);
        let more = members_encoded(members, ob, 0);
        crate::bytes::lemma_le_bytes_len(size as nat, 4);
        let h = header_bytes(6, 3, (n % 256) as u8, (n / 256) as u8, 0, size);
        assert(d =~= h + (more + rest));
        lemma_header(d, 6, 3, (n % 256) as u8, (n / 256) as u8, size, more + rest);
        assert(members.take(0) =~= Seq::empty());
    }
}

proof fn lemma_enumeration_parse(
    d: Seq<u8>,
    size: u32,
    base: DatatypeModel,
    eb: Seq<u8>,
    members: Seq<EnumMemberModel>,
    rest: Seq<u8>,
)
    requires
        members.len() <= 0xFFFF,
        d == header_bytes(
            8,
            3,
            (members.len() as u16 % 256) as u8,
            (members.len() as u16 / 256) as u8,
            0,
            size,
        ) + (eb + (names_encoded(members, 0) + (values_encoded(members, 0) + rest))),
        parsed(eb + (names_encoded(members, 0) + (values_encoded(members, 0) + rest))) == Ok::<
            (DatatypeModel, int),
            ErrorModel,
        >((base, eb.len() as int)),
        forall|i: int| 0 <= i < members.len() ==> is_name((#[trigger] members[i]).name),
        forall|i: int|
            0 <= i < members.len() ==> (#[trigger] members[i]).value.len() == base.size(),
    ensures
        parsed(d) == Ok::<(DatatypeModel, int), ErrorModel>(
            (
                DatatypeModel::Enumeration { size, base_type: Box::new(base), members },
                d.len() - rest.len(),
            ),
        ),
{
    let n = members.len() as u16;
    let names = names_encoded(members, 0);
    let values = values_encoded(members, 0);
    lemma_header(
        d,
        8,
        3,
        (n % 256) as u8,
        (n / 256) as u8,
        size,
        eb + (names + (values + rest)),
    );
    crate::bytes::lemma_peel(d, 8, eb, names + (values + rest));
    let p: int = 8 + eb.len() as int;
    assert(Seq::<Seq<char>>::empty() =~= Seq::new(0, |i: int| members[i].name));
    lemma_names(d, p, members, 0, Seq::empty(), values + rest);
    crate::bytes::lemma_peel(d, p, names, values + rest);
    lemma_values(d, p + names.len() as int, base.size() as int, members, 0, rest);
    assert(members.take(0) =~= Seq::empty());
    assert(parsed(d) == parsed_enumeration(d, size, 3, base, p));
}

#[verifier::rlimit(60)]
proof fn lemma_enumeration_round_trip(m: DatatypeModel, rest: Seq<u8>)
    requires
        representable(m),
        m is Enumeration,
        parsed(
            encoded(*m->Enumeration_base_type) + (names_encoded(m->Enumeration_members, 0) + (
            values_encoded(m->Enumeration_members, 0) + rest)),
        ) == Ok::<(DatatypeModel, int), ErrorModel>(
            (*m->Enumeration_base_type, encoded(*m->Enumeration_base_type).len() as int),
        ),
    ensures
        parsed(encoded(m) + rest) == Ok::<(DatatypeModel, int), ErrorModel>(
            (m, encoded(m).len() as int),
        ),
{
    if let DatatypeModel::Enumeration { size, base_type, members } = m {
        let n = members.len() as u16;
        let h = header_bytes(8, 3, (n % 256) as u8, (n / 256) as u8, 0, size);
        let eb = encoded(*base_type);
        let names = names_encoded(members, 0);
        let values = values_encoded(members, 0);
        assert(encoded(m) == h + eb + names + values);
        crate::bytes::lemma_concat_4(h, eb, names, values, rest);
        lemma_enumeration_parse(encoded(m) + rest, size, *base_type, eb, members, rest);
    }
}

#[verifier::rlimit(60)]
proof fn lemma_array_body(
    d: Seq<u8>,
    base: DatatypeModel,
    eb: Seq<u8>,
    dimensions: Seq<u32>,
    rest: Seq<u8>,
)
    requires
        dimensions.len() <= 255,
        eb.len() >= 8,
        d.len() >= 8,
        d.subrange(8, d.len() as int) == seq![dimensions.len() as u8] + (dimensions_encoded(
            dimensions,
            0,
        ) + (eb + rest)),
        parsed(eb + rest) == Ok::<(DatatypeModel, int), ErrorModel>((base, eb.len() as int)),
    ensures
        parsed_array(d, 0, 0) == Ok::<(DatatypeModel, int), ErrorModel>(
            (
                DatatypeModel::Array { base_type: Box::new(base), dimensions },
                d.len() - rest.len(),
            ),
        ),
{
    let count = dimensions.len() as u8;
    let dims = dimensions_encoded(dimensions, 0);
    crate::bytes::lemma_peel(d, 8, seq![count], dims + (eb + rest));
    assert(d[8] == d.subrange(8, 9)[0]);
    lemma_dimensions(d, 9, dimensions, 0, eb + rest);
    let read = Seq::new(count as nat, |i: int| crate::bytes::u32_at(d, 9 + 4 * i));
    assert forall|i: int| 0 <= i < dimensions.len() implies read[i] == dimensions[i] by {
        assert(crate::bytes::u32_at(d, 9 + 4 * (i - 0)) == dimensions[i]);
    }
    assert(read =~= dimensions);
    assert(count as int * 0 == 0);
}

#[verifier::rlimit(60)]
proof fn lemma_array_parse(
    d: Seq<u8>,
    size: u32,
    base: DatatypeModel,
    eb: Seq<u8>,
    dimensions: Seq<u32>,
    rest: Seq<u8>,
)
    requires
        dimensions.len() <= 255,
        eb.len() >= 8,
        d == header_bytes(10, 3, 0, 0, 0, size) + (seq![dimensions.len() as u8] + (
        dimensions_encoded(dimensions, 0) + (eb + rest))),
        parsed(eb + rest) == Ok::<(DatatypeModel, int), ErrorModel>((base, eb.len() as int)),
    ensures
        parsed(d) == Ok::<(DatatypeModel, int), ErrorModel>(
            (
                DatatypeModel::Array { base_type: Box::new(base), dimensions },
                d.len() - rest.len(),
            ),
        ),
{
    lemma_header(
        d,
        10,
        3,
        0,
        0,
        size,
        seq![dimensions.len() as u8] + (dimensions_encoded(dimensions, 0) + (eb + rest)),
    );
    lemma_array_body(d, base, eb, dimensions, rest);
    assert(parsed(d) == parsed_array(d, 0, 0));
}

#[verifier::rlimit(60)]
proof fn lemma_array_round_trip(m: DatatypeModel, rest: Seq<u8>)
    requires
        representable(m),
        m is Array,
        parsed(encoded(*m->Array_base_type) + rest) == Ok::<(DatatypeModel, int), ErrorModel>(
            (*m->Array_base_type, encoded(*m->Array_base_type).len() as int),
        ),
    ensures
        parsed(encoded(m) + rest) == Ok::<(DatatypeModel, int), ErrorModel>(
            (m, encoded(m).len() as int),
        ),
{
    if let DatatypeModel::Array { base_type, dimensions } = m {
        let h = header_bytes(10, 3, 0, 0, 0, m.size());
        let count = dimensions.len() as u8;
        let eb = encoded(*base_type);
        let dims = dimensions_encoded(dimensions, 0);
        law_message_has_header(*base_type);
        assert(encoded(m) == h.push(count) + dims + eb);
        assert(h.push(count) =~= h + seq![count]);
        crate::bytes::lemma_concat_4(h, seq![count], dims, eb, rest);
        lemma_array_parse(encoded(m) + rest, m.size(), *base_type, eb, dimensions, rest);
    }
}

/// Parsing the message of a representable datatype gives the datatype back, takes exactly the
/// bytes of the message, and leaves what follows it alone.
pub proof fn law_datatype_round_trip(m: DatatypeModel, rest: Seq<u8>)
    requires
        representable(m),
    ensures
        parsed(encoded(m) + rest) == Ok::<(DatatypeModel, int), ErrorModel>(
            (m, encoded(m).len() as int),
        ),
    decreases m, 0int,
{
    match m {
        DatatypeModel::FixedPoint { .. } => {
            lemma_fixed_point_round_trip(m, rest);
        },
        DatatypeModel::FloatingPoint { .. } => {
            lemma_floating_point_round_trip(m, rest);
        },
        DatatypeModel::String { .. } => {
            lemma_string_round_trip(m, rest);
        },
        DatatypeModel::VariableLength { base_type, .. } => {
            law_datatype_round_trip(*base_type, rest);
            lemma_variable_length_round_trip(m, rest);
        },
        DatatypeModel::Compound { size, members } => {
            let ob = offset_width(size);
            assert forall|d: Seq<u8>|
                d.len() >= 8 && #[trigger] d.subrange(8, d.len() as int) == members_encoded(
                    members,
                    ob,
                    0,
                ) + rest implies members_at(d, 8, ob, members.len(), Seq::empty()) == Ok::<
                (Seq<CompoundMemberModel>, int),
                ErrorModel,
            >((members, d.len() - rest.len())) by {
                lemma_members(d, 8, members, ob, 0, rest);
                assert(members.take(0) =~= Seq::empty());
            }
            lemma_compound_round_trip(m, rest);
        },
        DatatypeModel::Enumeration { base_type, members, .. } => {
            law_datatype_round_trip(
                *base_type,
                names_encoded(members, 0) + (values_encoded(members, 0) + rest),
            );
            lemma_enumeration_round_trip(m, rest);
        },
        DatatypeModel::Array { base_type, .. } => {
            law_datatype_round_trip(*base_type, rest);
            lemma_array_round_trip(m, rest);
        },
        DatatypeModel::Time { .. } => {
            lemma_time_round_trip(m, rest);
        },
        DatatypeModel::BitField { .. } => {
            lemma_bit_field_round_trip(m, rest);
        },
        DatatypeModel::Opaque { .. } => {
            lemma_opaque_round_trip(m, rest);
        },
        DatatypeModel::Reference { .. } => {
            lemma_reference_round_trip(m, rest);
        },
    }
}

/// The number of the class of `m`.
pub open spec fn class_id(m: DatatypeModel) -> u8 {
    match m {
        DatatypeModel::FixedPoint { .. } => CLASS_ID_FIXED_POINT,
        DatatypeModel::FloatingPoint { .. } => CLASS_ID_FLOATING_POINT,
        DatatypeModel::Time { .. } => CLASS_ID_TIME,
        DatatypeModel::String { .. } => CLASS_ID_STRING,
        DatatypeModel::BitField { .. } => CLASS_ID_BIT_FIELD,
        DatatypeModel::Opaque { .. } => CLASS_ID_OPAQUE,
        DatatypeModel::Compound { .. } => CLASS_ID_COMPOUND,
        DatatypeModel::Reference { .. } => CLASS_ID_REFERENCE,
        DatatypeModel::Enumeration { .. } => CLASS_ID_ENUMERATION,
        DatatypeModel::VariableLength { .. } => CLASS_ID_VARIABLE_LENGTH,
        DatatypeModel::Array { .. } => CLASS_ID_ARRAY,
    }
}

proof fn lemma_front(h: Seq<u8>, a: Seq<u8>, b: Seq<u8>, c: Seq<u8>, e: Seq<u8>)
    requires
        h.len() == 8,
    ensures
        has_front(h, h),
        has_front(h + a, h),
        has_front(h + a + b, h),
        has_front(h + a + b + c, h),
        has_front(h + a + b + c + e, h),
{
    assert((h + a).subrange(0, 8) =~= h);
    assert((h + a + b).subrange(0, 8) =~= h);
    assert((h + a + b + c).subrange(0, 8) =~= h);
    assert((h + a + b + c + e).subrange(0, 8) =~= h);
    assert(h.subrange(0, 8) =~= h);
}

/// Whether `d` starts with the header `h`.
spec fn has_front(d: Seq<u8>, h: Seq<u8>) -> bool {
    d.len() >= 8 && d.subrange(0, 8) == h
}

/// The header of the message of `m`.
proof fn lemma_front_of(m: DatatypeModel) -> (f: (u8, u8, u8, u8))
    ensures
        has_front(encoded(m), header_bytes(class_id(m), f.0, f.1, f.2, f.3, m.size())),
{
    crate::bytes::lemma_le_bytes_len(m.size() as nat, 4);
    let none = Seq::<u8>::empty();
    match m {
        DatatypeModel::FixedPoint { size, byte_order, signed, bit_offset, bit_precision } => {
            let f = fixed_point_flags(byte_order, signed);
            let h = header_bytes(CLASS_ID_FIXED_POINT, 1, f, 0, 0, size);
            let a = crate::bytes::le_bytes(bit_offset as nat, 2);
            let b = crate::bytes::le_bytes(bit_precision as nat, 2);
            lemma_front(h, a, b, none, none);
            (1, f, 0, 0)
        },
        DatatypeModel::FloatingPoint {
            size,
            byte_order,
            bit_offset,
            bit_precision,
            exponent_location,
            exponent_size,
            mantissa_location,
            mantissa_size,
            exponent_bias,
        } => {
            let h = header_bytes(CLASS_ID_FLOATING_POINT, 1, float_flags(byte_order), 0x3f, 0, size);
            let a = crate::bytes::le_bytes(bit_offset as nat, 2);
            let b = crate::bytes::le_bytes(bit_precision as nat, 2);
            let c = seq![exponent_location, exponent_size, mantissa_location, mantissa_size];
            let e = crate::bytes::le_bytes(exponent_bias as nat, 4);
            lemma_front(h, a, b, c, e);
            (1, float_flags(byte_order), 0x3f, 0)
        },
        DatatypeModel::Time { size, bit_precision } => {
            let h = header_bytes(CLASS_ID_TIME, 1, 0, 0, 0, size);
            lemma_front(h, crate::bytes::le_bytes(bit_precision as nat, 2), none, none, none);
            (1, 0, 0, 0)
        },
        DatatypeModel::String { size, padding, charset } => {
            let f = (padding_code(padding) + 16 * charset_code(charset)) as u8;
            lemma_front(header_bytes(CLASS_ID_STRING, 1, f, 0, 0, size), none, none, none, none);
            (1, f, 0, 0)
        },
        DatatypeModel::BitField { size, byte_order, bit_offset, bit_precision } => {
            let f = fixed_point_flags(byte_order, false);
            let h = header_bytes(CLASS_ID_BIT_FIELD, 1, f, 0, 0, size);
            let a = crate::bytes::le_bytes(bit_offset as nat, 2);
            let b = crate::bytes::le_bytes(bit_precision as nat, 2);
            lemma_front(h, a, b, none, none);
            (1, f, 0, 0)
        },
        DatatypeModel::Opaque { size, tag } => {
            let h = header_bytes(CLASS_ID_OPAQUE, 1, tag.len() as u8, 0, 0, size);
            lemma_front(h, tag, tag_padding(tag.len()), none, none);
            (1, tag.len() as u8, 0, 0)
        },
        DatatypeModel::Compound { size, members } => {
            let n = members.len() as u16;
            let h = header_bytes(CLASS_ID_COMPOUND, 3, (n % 256) as u8, (n / 256) as u8, 0, size);
            let all = members_encoded(members, offset_width(size), 0);
            lemma_front(h, all, none, none, none);
            (3, (n % 256) as u8, (n / 256) as u8, 0)
        },
        DatatypeModel::Reference { size, ref_type } => {
            let f = reference_code(ref_type);
            lemma_front(header_bytes(CLASS_ID_REFERENCE, 1, f, 0, 0, size), none, none, none, none);
            (1, f, 0, 0)
        },
        DatatypeModel::Enumeration { size, base_type, members } => {
            let n = members.len() as u16;
            let h = header_bytes(
                CLASS_ID_ENUMERATION,
                3,
                (n % 256) as u8,
                (n / 256) as u8,
                0,
                size,
            );
            let names = names_encoded(members, 0);
            lemma_front(h, encoded(*base_type), names, values_encoded(members, 0), none);
            (3, (n % 256) as u8, (n / 256) as u8, 0)
        },
        DatatypeModel::VariableLength { is_string, padding, charset, base_type } => {
            let f = variable_length_flags(is_string, padding);
            let g = charset_flags(is_string, charset);
            let h = header_bytes(CLASS_ID_VARIABLE_LENGTH, 1, f, g, 0, 16);
            lemma_front(h, encoded(*base_type), none, none, none);
            (1, f, g, 0)
        },
        DatatypeModel::Array { base_type, dimensions } => {
            let h = header_bytes(CLASS_ID_ARRAY, 3, 0, 0, 0, m.size());
            let count = seq![dimensions.len() as u8];
            assert(h.push(dimensions.len() as u8) =~= h + count);
            let dims = dimensions_encoded(dimensions, 0);
            lemma_front(h, count, dims, encoded(*base_type), none);
            (3, 0, 0, 0)
        },
    }
}

/// The message of every datatype starts with a header of eight bytes, which gives the class and
/// the size of an element.
pub proof fn law_message_has_header(m: DatatypeModel)
    ensures
        encoded(m).len() >= 8,
        encoded(m)[0] % 16 == class_id(m),
        encoded(m).subrange(4, 8) == crate::bytes::le_bytes(m.size() as nat, 4),
{
    let f = lemma_front_of(m);
    crate::bytes::lemma_le_bytes_len(m.size() as nat, 4);
    let h = header_bytes(class_id(m), f.0, f.1, f.2, f.3, m.size());
    assert(encoded(m).subrange(4, 8) =~= encoded(m).subrange(0, 8).subrange(4, 8));
    assert(h.subrange(4, 8) =~= crate::bytes::le_bytes(m.size() as nat, 4));
    assert(encoded(m)[0] == encoded(m).subrange(0, 8)[0]);
}

// ---- Constructors ----

/// The content of an integer type that fills its bytes.
pub open spec fn integer_type(size: u32, signed: bool, byte_order: DatatypeByteOrder) -> DatatypeModel {
    DatatypeModel::FixedPoint {
        size,
        byte_order,
        signed,
        bit_offset: 0,
        bit_precision: (size * 8) as u16,
    }
}

/// The content of the IEEE 754 single-precision type.
pub open spec fn single_type(byte_order: DatatypeByteOrder) -> DatatypeModel {
    DatatypeModel::FloatingPoint {
        size: 4,
        byte_order,
        bit_offset: 0,
        bit_precision: 32,
        exponent_location: 23,
        exponent_size: 8,
        mantissa_location: 0,
        mantissa_size: 23,
        exponent_bias: 127,
    }
}

/// The content of the IEEE 754 double-precision type.
pub open spec fn double_type(byte_order: DatatypeByteOrder) -> DatatypeModel {
    DatatypeModel::FloatingPoint {
        size: 8,
        byte_order,
        bit_offset: 0,
        bit_precision: 64,
        exponent_location: 52,
        exponent_size: 11,
        mantissa_location: 0,
        mantissa_size: 52,
        exponent_bias: 1023,
    }
}

impl Datatype {
    /// The little-endian 8-bit unsigned integer type.
    pub fn u8_le() -> (t: Self)
        ensures
            t.model() == integer_type(1, false, DatatypeByteOrder::LittleEndian),
    {
        Datatype::FixedPoint {
            size: 1,
            byte_order: DatatypeByteOrder::LittleEndian,
            signed: false,
            bit_offset: 0,
            bit_precision: 8,
        }
    }

    /// The little-endian 16-bit unsigned integer type.
    pub fn u16_le() -> (t: Self)
        ensures
            t.model() == integer_type(2, false, DatatypeByteOrder::LittleEndian),
    {
        Datatype::FixedPoint {
            size: 2,
            byte_order: DatatypeByteOrder::LittleEndian,
            signed: false,
            bit_offset: 0,
            bit_precision: 16,
        }
    }

    /// The little-endian 32-bit unsigned integer type.
    pub fn u32_le() -> (t: Self)
        ensures
            t.model() == integer_type(4, false, DatatypeByteOrder::LittleEndian),
    {
        Datatype::FixedPoint {
            size: 4,
            byte_order: DatatypeByteOrder::LittleEndian,
            signed: false,
            bit_offset: 0,
            bit_precision: 32,
        }
    }

    /// The little-endian 64-bit unsigned integer type.
    pub fn u64_le() -> (t: Self)
        ensures
            t.model() == integer_type(8, false, DatatypeByteOrder::LittleEndian),
    {
        Datatype::FixedPoint {
            size: 8,
            byte_order: DatatypeByteOrder::LittleEndian,
            signed: false,
            bit_offset: 0,
            bit_precision: 64,
        }
    }

    /// The little-endian 8-bit signed integer type.
    pub fn i8_le() -> (t: Self)
        ensures
            t.model() == integer_type(1, true, DatatypeByteOrder::LittleEndian),
    {
        Datatype::FixedPoint {
            size: 1,
            byte_order: DatatypeByteOrder::LittleEndian,
            signed: true,
            bit_offset: 0,
            bit_precision: 8,
        }
    }

    /// The little-endian 16-bit signed integer type.
    pub fn i16_le() -> (t: Self)
        ensures
            t.model() == integer_type(2, true, DatatypeByteOrder::LittleEndian),
    {
        Datatype::FixedPoint {
            size: 2,
            byte_order: DatatypeByteOrder::LittleEndian,
            signed: true,
            bit_offset: 0,
            bit_precision: 16,
        }
    }

    /// The little-endian 32-bit signed integer type.
    pub fn i32_le() -> (t: Self)
        ensures
            t.model() == integer_type(4, true, DatatypeByteOrder::LittleEndian),
    {
        Datatype::FixedPoint {
            size: 4,
            byte_order: DatatypeByteOrder::LittleEndian,
            signed: true,
            bit_offset: 0,
            bit_precision: 32,
        }
    }

    /// The little-endian 64-bit signed integer type.
    pub fn i64_le() -> (t: Self)
        ensures
            t.model() == integer_type(8, true, DatatypeByteOrder::LittleEndian),
    {
        Datatype::FixedPoint {
            size: 8,
            byte_order: DatatypeByteOrder::LittleEndian,
            signed: true,
            bit_offset: 0,
            bit_precision: 64,
        }
    }

    /// The little-endian single-precision type.
    pub fn f32_le() -> (t: Self)
        ensures
            t.model() == single_type(DatatypeByteOrder::LittleEndian),
    {
        Datatype::FloatingPoint {
            size: 4,
            byte_order: DatatypeByteOrder::LittleEndian,
            bit_offset: 0,
            bit_precision: 32,
            exponent_location: 23,
            exponent_size: 8,
            mantissa_location: 0,
            mantissa_size: 23,
            exponent_bias: 127,
        }
    }

    /// The little-endian double-precision type.
    pub fn f64_le() -> (t: Self)
        ensures
            t.model() == double_type(DatatypeByteOrder::LittleEndian),
    {
        Datatype::FloatingPoint {
            size: 8,
            byte_order: DatatypeByteOrder::LittleEndian,
            bit_offset: 0,
            bit_precision: 64,
            exponent_location: 52,
            exponent_size: 11,
            mantissa_location: 0,
            mantissa_size: 52,
            exponent_bias: 1023,
        }
    }

    /// The big-endian 8-bit unsigned integer type.
    pub fn u8_be() -> (t: Self)
        ensures
            t.model() == integer_type(1, false, DatatypeByteOrder::BigEndian),
    {
        Datatype::FixedPoint {
            size: 1,
            byte_order: DatatypeByteOrder::BigEndian,
            signed: false,
            bit_offset: 0,
            bit_precision: 8,
        }
    }

    /// The big-endian 16-bit unsigned integer type.
    pub fn u16_be() -> (t: Self)
        ensures
            t.model() == integer_type(2, false, DatatypeByteOrder::BigEndian),
    {
        Datatype::FixedPoint {
            size: 2,
            byte_order: DatatypeByteOrder::BigEndian,
            signed: false,
            bit_offset: 0,
            bit_precision: 16,
        }
    }

    /// The big-endian 32-bit unsigned integer type.
    pub fn u32_be() -> (t: Self)
        ensures
            t.model() == integer_type(4, false, DatatypeByteOrder::BigEndian),
    {
        Datatype::FixedPoint {
            size: 4,
            byte_order: DatatypeByteOrder::BigEndian,
            signed: false,
            bit_offset: 0,
            bit_precision: 32,
        }
    }

    /// The big-endian 64-bit unsigned integer type.
    pub fn u64_be() -> (t: Self)
        ensures
            t.model() == integer_type(8, false, DatatypeByteOrder::BigEndian),
    {
        Datatype::FixedPoint {
            size: 8,
            byte_order: DatatypeByteOrder::BigEndian,
            signed: false,
            bit_offset: 0,
            bit_precision: 64,
        }
    }

    /// The big-endian 8-bit signed integer type.
    pub fn i8_be() -> (t: Self)
        ensures
            t.model() == integer_type(1, true, DatatypeByteOrder::BigEndian),
    {
        Datatype::FixedPoint {
            size: 1,
            byte_order: DatatypeByteOrder::BigEndian,
            signed: true,
            bit_offset: 0,
            bit_precision: 8,
        }
    }

    /// The big-endian 16-bit signed integer type.
    pub fn i16_be() -> (t: Self)
        ensures
            t.model() == integer_type(2, true, DatatypeByteOrder::BigEndian),
    {
        Datatype::FixedPoint {
            size: 2,
            byte_order: DatatypeByteOrder::BigEndian,
            signed: true,
            bit_offset: 0,
            bit_precision: 16,
        }
    }

    /// The big-endian 32-bit signed integer type.
    pub fn i32_be() -> (t: Self)
        ensures
            t.model() == integer_type(4, true, DatatypeByteOrder::BigEndian),
    {
        Datatype::FixedPoint {
            size: 4,
            byte_order: DatatypeByteOrder::BigEndian,
            signed: true,
            bit_offset: 0,
            bit_precision: 32,
        }
    }

    /// The big-endian 64-bit signed integer type.
    pub fn i64_be() -> (t: Self)
        ensures
            t.model() == integer_type(8, true, DatatypeByteOrder::BigEndian),
    {
        Datatype::FixedPoint {
            size: 8,
            byte_order: DatatypeByteOrder::BigEndian,
            signed: true,
            bit_offset: 0,
            bit_precision: 64,
        }
    }

    /// The big-endian single-precision type.
    pub fn f32_be() -> (t: Self)
        ensures
            t.model() == single_type(DatatypeByteOrder::BigEndian),
    {
        Datatype::FloatingPoint {
            size: 4,
            byte_order: DatatypeByteOrder::BigEndian,
            bit_offset: 0,
            bit_precision: 32,
            exponent_location: 23,
            exponent_size: 8,
            mantissa_location: 0,
            mantissa_size: 23,
            exponent_bias: 127,
        }
    }

    /// The big-endian double-precision type.
    pub fn f64_be() -> (t: Self)
        ensures
            t.model() == double_type(DatatypeByteOrder::BigEndian),
    {
        Datatype::FloatingPoint {
            size: 8,
            byte_order: DatatypeByteOrder::BigEndian,
            bit_offset: 0,
            bit_precision: 64,
            exponent_location: 52,
            exponent_size: 11,
            mantissa_location: 0,
            mantissa_size: 52,
            exponent_bias: 1023,
        }
    }

    /// The null-terminated ASCII string type of `size` bytes.
    pub fn string_null_terminate_ascii(size: u32) -> (t: Self)
        ensures
            t.model() == (DatatypeModel::String {
                size,
                padding: StringPadding::NullTerminate,
                charset: CharacterSet::Ascii,
            }),
    {
        Datatype::String {
            size,
            padding: StringPadding::NullTerminate,
            charset: CharacterSet::Ascii,
        }
    }

    /// The null-padded ASCII string type of `size` bytes.
    pub fn string_null_padded_ascii(size: u32) -> (t: Self)
        ensures
            t.model() == (DatatypeModel::String {
                size,
                padding: StringPadding::NullPad,
                charset: CharacterSet::Ascii,
            }),
    {
        Datatype::String {
            size,
            padding: StringPadding::NullPad,
            charset: CharacterSet::Ascii,
        }
    }

    /// The space-padded ASCII string type of `size` bytes.
    pub fn string_space_padded_ascii(size: u32) -> (t: Self)
        ensures
            t.model() == (DatatypeModel::String {
                size,
                padding: StringPadding::SpacePad,
                charset: CharacterSet::Ascii,
            }),
    {
        Datatype::String {
            size,
            padding: StringPadding::SpacePad,
            charset: CharacterSet::Ascii,
        }
    }

    /// The null-terminated UTF-8 string type of `size` bytes.
    pub fn string_null_terminate_utf8(size: u32) -> (t: Self)
        ensures
            t.model() == (DatatypeModel::String {
                size,
                padding: StringPadding::NullTerminate,
                charset: CharacterSet::Utf8,
            }),
    {
        Datatype::String {
            size,
            padding: StringPadding::NullTerminate,
            charset: CharacterSet::Utf8,
        }
    }

    /// The null-padded UTF-8 string type of `size` bytes.
    pub fn string_null_padded_utf8(size: u32) -> (t: Self)
        ensures
            t.model() == (DatatypeModel::String {
                size,
                padding: StringPadding::NullPad,
                charset: CharacterSet::Utf8,
            }),
    {
        Datatype::String {
            size,
            padding: StringPadding::NullPad,
            charset: CharacterSet::Utf8,
        }
    }

    /// The space-padded UTF-8 string type of `size` bytes.
    pub fn string_space_padded_utf8(size: u32) -> (t: Self)
        ensures
            t.model() == (DatatypeModel::String {
                size,
                padding: StringPadding::SpacePad,
                charset: CharacterSet::Utf8,
            }),
    {
        Datatype::String {
            size,
            padding: StringPadding::SpacePad,
            charset: CharacterSet::Utf8,
        }
    }
}

// ---- Copies ----

impl Clone for EnumMember {
    fn clone(&self) -> (copy: Self)
        ensures
            copy.model() == self.model(),
    {
        EnumMember { name: self.name.clone(), value: slice_to_vec(self.value.as_slice()) }
    }
}

impl Clone for CompoundMember {
    fn clone(&self) -> (copy: Self)
        ensures
            copy.model() == self.model(),
        decreases self,
    {
        CompoundMember {
            name: self.name.clone(),
            byte_offset: self.byte_offset,
            datatype: self.datatype.clone(),
        }
    }
}

fn clone_enum_members(members: &Vec<EnumMember>) -> (copy: Vec<EnumMember>)
    ensures
        enum_models(copy@) == enum_models(members@),
{
    let mut copy: Vec<EnumMember> = Vec::with_capacity(members.len());
    let mut i: usize = 0;
    while i < members.len()
        invariant
            i == copy@.len() <= members@.len(),
            forall|k: int| 0 <= k < i ==> (#[trigger] copy@[k]).model() == members@[k].model(),
        decreases members@.len() - i,
    {
        copy.push(members[i].clone());
        i += 1;
    }
    assert(enum_models(copy@) =~= enum_models(members@));
    copy
}

fn clone_members(members: &Vec<CompoundMember>) -> (copy: Vec<CompoundMember>)
    ensures
        member_models(copy@) == member_models(members@),
    decreases members,
{
    let mut copy: Vec<CompoundMember> = Vec::with_capacity(members.len());
    let mut i: usize = 0;
    while i < members.len()
        invariant
            i == copy@.len() <= members@.len(),
            forall|k: int| 0 <= k < i ==> (#[trigger] copy@[k]).model() == members@[k].model(),
        decreases members@.len() - i,
    {
        copy.push(members[i].clone());
        i += 1;
    }
    assert(member_models(copy@) =~= member_models(members@));
    copy
}

impl Clone for Datatype {
    fn clone(&self) -> (copy: Self)
        ensures
            copy.model() == self.model(),
        decreases self,
    {
        match self {
            Datatype::FixedPoint { size, byte_order, signed, bit_offset, bit_precision } =>
                Datatype::FixedPoint {
                    size: *size,
                    byte_order: *byte_order,
                    signed: *signed,
                    bit_offset: *bit_offset,
                    bit_precision: *bit_precision,
                },
            Datatype::FloatingPoint {
                size,
                byte_order,
                bit_offset,
                bit_precision,
                exponent_location,
                exponent_size,
                mantissa_location,
                mantissa_size,
                exponent_bias,
            } => Datatype::FloatingPoint {
                size: *size,
                byte_order: *byte_order,
                bit_offset: *bit_offset,
                bit_precision: *bit_precision,
                exponent_location: *exponent_location,
                exponent_size: *exponent_size,
                mantissa_location: *mantissa_location,
                mantissa_size: *mantissa_size,
                exponent_bias: *exponent_bias,
            },
            Datatype::Time { size, bit_precision } => Datatype::Time {
                size: *size,
                bit_precision: *bit_precision,
            },
            Datatype::String { size, padding, charset } => Datatype::String {
                size: *size,
                padding: *padding,
                charset: *charset,
            },
            Datatype::BitField { size, byte_order, bit_offset, bit_precision } =>
                Datatype::BitField {
                    size: *size,
                    byte_order: *byte_order,
                    bit_offset: *bit_offset,
                    bit_precision: *bit_precision,
                },
            Datatype::Opaque { size, tag } => Datatype::Opaque {
                size: *size,
                tag: slice_to_vec(tag.as_slice()),
            },
            Datatype::Compound { size, members } => {
                let copy = clone_members(members);
                proof {
                    lemma_compound_model(*size, *members);
                    lemma_compound_model(*size, copy);
                }
                Datatype::Compound { size: *size, members: copy }
            },
            Datatype::Reference { size, ref_type } => Datatype::Reference {
                size: *size,
                ref_type: *ref_type,
            },
            Datatype::Enumeration { size, base_type, members } => Datatype::Enumeration {
                size: *size,
                base_type: Box::new((&**base_type).clone()),
                members: clone_enum_members(members),
            },
            Datatype::VariableLength { is_string, padding, charset, base_type } =>
                Datatype::VariableLength {
                    is_string: *is_string,
                    padding: *padding,
                    charset: *charset,
                    base_type: Box::new((&**base_type).clone()),
                },
            Datatype::Array { base_type, dimensions } => Datatype::Array {
                base_type: Box::new((&**base_type).clone()),
                dimensions: slice_to_vec(dimensions.as_slice()),
            },
        }
    }
}

} // verus!

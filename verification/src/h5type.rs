//! Mapping of Rust structs to HDF5 compound datatypes.
//!
//! A struct with named fields is described by the list of its fields. From that list follow the
//! compound datatype and how the values of the fields stand in the raw bytes: one after the other,
//! little-endian, without padding.

use vstd::prelude::*;
use crate::bytes::{get_u16, get_u32, get_u64, put_le};
use crate::datatype::{
    CompoundMember, CompoundMemberModel, Datatype, DatatypeByteOrder, DatatypeModel,
};
use crate::text::same_text;

verus! {

/// A primitive type that a field can have.
#[derive(Debug, Clone, Copy, PartialEq, Eq, Structural)]
pub enum Scalar {
    F32,
    F64,
    I8,
    I16,
    I32,
    I64,
    U8,
    U16,
    U32,
    U64,
    Bool,
}

impl Scalar {
    /// The number of bytes that a value takes.
    pub open spec fn width(self) -> nat {
        match self {
            Scalar::I8 | Scalar::U8 | Scalar::Bool => 1,
            Scalar::I16 | Scalar::U16 => 2,
            Scalar::F32 | Scalar::I32 | Scalar::U32 => 4,
            Scalar::F64 | Scalar::I64 | Scalar::U64 => 8,
        }
    }

    /// The datatype of the values.
    pub open spec fn model(self) -> DatatypeModel {
        let le = DatatypeByteOrder::LittleEndian;
        match self {
            Scalar::F32 => crate::datatype::single_type(le),
            Scalar::F64 => crate::datatype::double_type(le),
            Scalar::I8 => crate::datatype::integer_type(1, true, le),
            Scalar::I16 => crate::datatype::integer_type(2, true, le),
            Scalar::I32 => crate::datatype::integer_type(4, true, le),
            Scalar::I64 => crate::datatype::integer_type(8, true, le),
            Scalar::U8 | Scalar::Bool => crate::datatype::integer_type(1, false, le),
            Scalar::U16 => crate::datatype::integer_type(2, false, le),
            Scalar::U32 => crate::datatype::integer_type(4, false, le),
            Scalar::U64 => crate::datatype::integer_type(8, false, le),
        }
    }

    /// Whether a word holds a value of this type: the bits of the value, in the low bytes.
    pub open spec fn admits(self, word: u64) -> bool {
        match self {
            Scalar::Bool => word <= 1,
            _ => word < crate::bytes::pow256(self.width()),
        }
    }

    /// The number of bytes that a value takes.
    pub fn size(self) -> (n: usize)
        ensures
            n == self.width(),
    {
        match self {
            Scalar::I8 | Scalar::U8 | Scalar::Bool => 1,
            Scalar::I16 | Scalar::U16 => 2,
            Scalar::F32 | Scalar::I32 | Scalar::U32 => 4,
            Scalar::F64 | Scalar::I64 | Scalar::U64 => 8,
        }
    }

    /// The datatype of the values.
    pub fn datatype(self) -> (t: Datatype)
        ensures
            t.deep_view() == self.model(),
    {
        match self {
            Scalar::F32 => Datatype::f32_le(),
            Scalar::F64 => Datatype::f64_le(),
            Scalar::I8 => Datatype::i8_le(),
            Scalar::I16 => Datatype::i16_le(),
            Scalar::I32 => Datatype::i32_le(),
            Scalar::I64 => Datatype::i64_le(),
            Scalar::U8 | Scalar::Bool => Datatype::u8_le(),
            Scalar::U16 => Datatype::u16_le(),
            Scalar::U32 => Datatype::u32_le(),
            Scalar::U64 => Datatype::u64_le(),
        }
    }
}

// ---- Names of types ----

/// The numeric type with the given name.
pub open spec fn numeric_named(name: Seq<char>) -> Option<Scalar> {
    if name == "f64"@ {
        Some(Scalar::F64)
    } else if name == "f32"@ {
        Some(Scalar::F32)
    } else if name == "i8"@ {
        Some(Scalar::I8)
    } else if name == "i16"@ {
        Some(Scalar::I16)
    } else if name == "i32"@ {
        Some(Scalar::I32)
    } else if name == "i64"@ {
        Some(Scalar::I64)
    } else if name == "u8"@ {
        Some(Scalar::U8)
    } else if name == "u16"@ {
        Some(Scalar::U16)
    } else if name == "u32"@ {
        Some(Scalar::U32)
    } else if name == "u64"@ {
        Some(Scalar::U64)
    } else {
        None
    }
}

/// The type of a field with the given type name.
pub open spec fn scalar_named(name: Seq<char>) -> Option<Scalar> {
    match numeric_named(name) {
        Some(s) => Some(s),
        None => if name == "bool"@ {
            Some(Scalar::Bool)
        } else {
            None
        },
    }
}

fn find_numeric(name: &str) -> (s: Option<Scalar>)
    ensures
        s == numeric_named(name@),
{
    if same_text(name, "f64") {
        Some(Scalar::F64)
    } else if same_text(name, "f32") {
        Some(Scalar::F32)
    } else if same_text(name, "i8") {
        Some(Scalar::I8)
    } else if same_text(name, "i16") {
        Some(Scalar::I16)
    } else if same_text(name, "i32") {
        Some(Scalar::I32)
    } else if same_text(name, "i64") {
        Some(Scalar::I64)
    } else if same_text(name, "u8") {
        Some(Scalar::U8)
    } else if same_text(name, "u16") {
        Some(Scalar::U16)
    } else if same_text(name, "u32") {
        Some(Scalar::U32)
    } else if same_text(name, "u64") {
        Some(Scalar::U64)
    } else {
        None
    }
}

/// The message for a type that is not supported.
fn refusal(kind: &str, name: &str) -> (message: String)
    ensures
        message@ == kind@ + "`"@ + name@ + "` for H5Type derive"@,
{
    let mut message = kind.to_string();
    message.append("`");
    message.append(name);
    message.append("` for H5Type derive");
    message
}

/// The type of a field that is declared with the given type name.
///
/// # Errors
///
/// Returns a message that names the type if it is not supported.
pub fn field_scalar(name: &str) -> (r: Result<Scalar, String>)
    ensures
        match r {
            Ok(s) => scalar_named(name@) == Some(s),
            Err(message) => scalar_named(name@) is None && message@ == "unsupported type "@ + "`"@
                + name@ + "` for H5Type derive"@,
        },
{
    match find_numeric(name) {
        Some(s) => Ok(s),
        None => {
            if same_text(name, "bool") {
                Ok(Scalar::Bool)
            } else {
                Err(refusal("unsupported type ", name))
            }
        },
    }
}

/// The type of the elements of an array that is declared with the given type name. Arrays of
/// `bool` are not supported.
///
/// # Errors
///
/// Returns a message that names the type if it is not supported.
pub fn element_scalar(name: &str) -> (r: Result<Scalar, String>)
    ensures
        match r {
            Ok(s) => numeric_named(name@) == Some(s),
            Err(message) => numeric_named(name@) is None && message@
                == "unsupported array element type "@ + "`"@ + name@ + "` for H5Type derive"@,
        },
{
    match find_numeric(name) {
        Some(s) => Ok(s),
        None => Err(refusal("unsupported array element type ", name)),
    }
}

// ---- Fields ----

/// The type of a field.
#[derive(Debug, Clone, Copy, PartialEq, Eq, Structural)]
pub enum FieldType {
    /// A single value.
    Single(Scalar),
    /// An array of a fixed number of values.
    Array(Scalar, usize),
}

impl FieldType {
    /// The number of values.
    pub open spec fn count(self) -> nat {
        match self {
            FieldType::Single(_) => 1,
            FieldType::Array(_, n) => n as nat,
        }
    }

    /// The type of the values.
    pub open spec fn scalar(self) -> Scalar {
        match self {
            FieldType::Single(s) => s,
            FieldType::Array(s, _) => s,
        }
    }

    /// The number of bytes that the field takes.
    pub open spec fn width(self) -> nat {
        self.count() * self.scalar().width()
    }

    /// The datatype of the field.
    pub open spec fn model(self) -> DatatypeModel {
        match self {
            FieldType::Single(s) => s.model(),
            FieldType::Array(s, n) => DatatypeModel::Array {
                base_type: Box::new(s.model()),
                dimensions: seq![n as u32],
            },
        }
    }

    /// The number of bytes that the field takes.
    pub fn size(self) -> (n: usize)
        requires
            self.width() <= usize::MAX,
        ensures
            n == self.width(),
    {
        match self {
            FieldType::Single(s) => s.size(),
            FieldType::Array(s, n) => n * s.size(),
        }
    }

    /// The datatype of the field.
    pub fn datatype(self) -> (t: Datatype)
        ensures
            t.deep_view() == self.model(),
    {
        match self {
            FieldType::Single(s) => s.datatype(),
            FieldType::Array(s, n) => {
                let mut dimensions: Vec<u32> = Vec::with_capacity(1);
                dimensions.push(n as u32);
                assert(dimensions@ =~= seq![n as u32]);
                Datatype::Array { base_type: Box::new(s.datatype()), dimensions }
            },
        }
    }
}

/// A named field of a struct.
#[derive(Debug, Clone, PartialEq, Eq)]
pub struct RecordField {
    pub name: String,
    pub kind: FieldType,
}

/// The content of a [`RecordField`].
pub struct FieldModel {
    pub name: Seq<char>,
    pub kind: FieldType,
}

impl DeepView for RecordField {
    type V = FieldModel;

    open spec fn deep_view(&self) -> FieldModel {
        FieldModel { name: self.name@, kind: self.kind }
    }
}

/// The number of bytes in front of field `n`.
pub open spec fn offset_of(fields: Seq<FieldModel>, n: int) -> nat
    decreases n,
{
    if n <= 0 {
        0
    } else {
        offset_of(fields, n - 1) + fields[n - 1].kind.width()
    }
}

proof fn lemma_offsets_grow(fields: Seq<FieldModel>, k: int, n: int)
    requires
        0 <= k <= n,
    ensures
        offset_of(fields, k) <= offset_of(fields, n),
    decreases n - k,
{
    if k < n {
        lemma_offsets_grow(fields, k, n - 1);
    }
}

/// The number of bytes that all fields take.
pub open spec fn record_width(fields: Seq<FieldModel>) -> nat {
    offset_of(fields, fields.len() as int)
}

/// The compound datatype of a struct with the given fields.
pub open spec fn record_type(fields: Seq<FieldModel>) -> DatatypeModel {
    DatatypeModel::Compound {
        size: record_width(fields) as u32,
        members: Seq::new(
            fields.len(),
            |i: int|
                CompoundMemberModel {
                    name: fields[i].name,
                    byte_offset: offset_of(fields, i) as u64,
                    datatype: fields[i].kind.model(),
                },
        ),
    }
}

/// The number of bytes that a struct with the given fields takes.
pub fn record_size(fields: &[RecordField]) -> (n: usize)
    requires
        record_width(fields.deep_view()) <= usize::MAX,
    ensures
        n == record_width(fields.deep_view()),
{
    let ghost all = fields.deep_view();
    let mut size: usize = 0;
    let mut k: usize = 0;
    while k < fields.len()
        invariant
            k <= fields@.len(),
            all == fields.deep_view(),
            all.len() == fields@.len(),
            record_width(all) <= usize::MAX,
            size == offset_of(all, k as int),
        decreases fields@.len() - k,
    {
        assert(all[k as int] == fields@[k as int].deep_view());
        proof {
            lemma_offsets_grow(all, k + 1, all.len() as int);
        }
        size = size + fields[k].kind.size();
        k += 1;
    }
    size
}

/// Returns the HDF5 compound datatype descriptor of a struct with the given fields.
pub fn hdf5_datatype(fields: &[RecordField]) -> (t: Datatype)
    requires
        record_width(fields.deep_view()) <= usize::MAX,
    ensures
        t.deep_view() == record_type(fields.deep_view()),
{
    let ghost all = fields.deep_view();
    let mut offset: usize = 0;
    let mut members: Vec<CompoundMember> = Vec::with_capacity(fields.len());
    let mut k: usize = 0;
    while k < fields.len()
        invariant
            k <= fields@.len(),
            all == fields.deep_view(),
            all.len() == fields@.len(),
            record_width(all) <= usize::MAX,
            offset == offset_of(all, k as int),
            members@.len() == k,
            forall|i: int|
                0 <= i < k ==> (#[trigger] members@[i]).model() == (CompoundMemberModel {
                    name: all[i].name,
                    byte_offset: offset_of(all, i) as u64,
                    datatype: all[i].kind.model(),
                }),
        decreases fields@.len() - k,
    {
        assert(all[k as int] == fields@[k as int].deep_view());
        proof {
            lemma_offsets_grow(all, k + 1, all.len() as int);
        }
        members.push(
            CompoundMember {
                name: fields[k].name.clone(),
                byte_offset: offset as u64,
                datatype: fields[k].kind.datatype(),
            },
        );
        offset = offset + fields[k].kind.size();
        k += 1;
    }
    let size: u32 = offset as u32;
    proof {
        crate::datatype::lemma_compound_model(size, members);
        let m = crate::datatype::member_models(members@);
        assert(m =~= record_type(all)->Compound_members);
    }
    Datatype::Compound { size, members }
}

// ---- Values ----

/// The types of all values in the first `n` fields: an array counts as its elements.
pub open spec fn slots(fields: Seq<FieldModel>, n: int) -> Seq<Scalar>
    decreases n,
{
    if n <= 0 {
        Seq::empty()
    } else {
        slots(fields, n - 1) + Seq::new(
            fields[n - 1].kind.count(),
            |i: int| fields[n - 1].kind.scalar(),
        )
    }
}

/// The types of all values of a struct.
pub open spec fn all_slots(fields: Seq<FieldModel>) -> Seq<Scalar> {
    slots(fields, fields.len() as int)
}

/// The number of bytes in front of value `n`.
pub open spec fn position_of(kinds: Seq<Scalar>, n: int) -> nat
    decreases n,
{
    if n <= 0 {
        0
    } else {
        position_of(kinds, n - 1) + kinds[n - 1].width()
    }
}

/// The bytes of the first `n` values.
pub open spec fn encoded(kinds: Seq<Scalar>, words: Seq<u64>, n: int) -> Seq<u8>
    decreases n,
{
    if n <= 0 {
        Seq::empty()
    } else {
        encoded(kinds, words, n - 1) + crate::bytes::le_bytes(
            words[n - 1] as nat,
            kinds[n - 1].width(),
        )
    }
}

/// The value of the given type at a position.
pub open spec fn word_at(d: Seq<u8>, p: int, kind: Scalar) -> u64 {
    let v = crate::bytes::le_value(d.subrange(p, p + kind.width()));
    match kind {
        Scalar::Bool => if v != 0 {
            1
        } else {
            0
        },
        _ => v as u64,
    }
}

/// The values that the bytes hold.
pub open spec fn decoded(kinds: Seq<Scalar>, d: Seq<u8>) -> Seq<u64> {
    Seq::new(kinds.len(), |k: int| word_at(d, position_of(kinds, k) as int, kinds[k]))
}

/// Whether the words hold values of the given types.
pub open spec fn are_values(kinds: Seq<Scalar>, words: Seq<u64>) -> bool {
    &&& words.len() == kinds.len()
    &&& forall|k: int| 0 <= k < kinds.len() ==> (#[trigger] kinds[k]).admits(words[k])
}

proof fn lemma_positions_grow(kinds: Seq<Scalar>, k: int, n: int)
    requires
        0 <= k <= n,
    ensures
        position_of(kinds, k) <= position_of(kinds, n),
    decreases n - k,
{
    if k < n {
        lemma_positions_grow(kinds, k, n - 1);
    }
}

/// Where the values of a list that continues another one stand.
proof fn lemma_positions_continue(a: Seq<Scalar>, b: Seq<Scalar>, n: int)
    requires
        0 <= n <= b.len(),
    ensures
        position_of(a + b, a.len() + n) == position_of(a, a.len() as int) + position_of(b, n),
    decreases n,
{
    if n > 0 {
        lemma_positions_continue(a, b, n - 1);
        assert((a + b)[a.len() + n - 1] == b[n - 1]);
    } else {
        lemma_same_positions(a + b, a, a.len() as int);
    }
}

proof fn lemma_same_positions(a: Seq<Scalar>, b: Seq<Scalar>, n: int)
    requires
        0 <= n <= a.len(),
        n <= b.len(),
        forall|i: int| 0 <= i < n ==> a[i] == b[i],
    ensures
        position_of(a, n) == position_of(b, n),
    decreases n,
{
    if n > 0 {
        lemma_same_positions(a, b, n - 1);
    }
}

proof fn lemma_positions_repeat(s: Scalar, count: nat, n: int)
    requires
        0 <= n <= count,
    ensures
        position_of(Seq::new(count, |i: int| s), n) == n * s.width(),
    decreases n,
{
    if n > 0 {
        lemma_positions_repeat(s, count, n - 1);
        assert(n * s.width() == (n - 1) * s.width() + s.width()) by (nonlinear_arith);
    } else {
        assert(0 * s.width() == 0) by (nonlinear_arith);
    }
}

/// The values take as many bytes as the fields.
pub proof fn law_values_fill_record(fields: Seq<FieldModel>, n: int)
    requires
        0 <= n <= fields.len(),
    ensures
        position_of(slots(fields, n), slots(fields, n).len() as int) == offset_of(fields, n),
    decreases n,
{
    if n > 0 {
        law_values_fill_record(fields, n - 1);
        let kind = fields[n - 1].kind;
        let tail = Seq::new(kind.count(), |i: int| kind.scalar());
        assert(tail =~= Seq::new(
            fields[n - 1].kind.count(),
            |i: int| fields[n - 1].kind.scalar(),
        ));
        lemma_positions_continue(slots(fields, n - 1), tail, tail.len() as int);
        lemma_positions_repeat(kind.scalar(), kind.count(), kind.count() as int);
    }
}

proof fn lemma_encoded_len(kinds: Seq<Scalar>, words: Seq<u64>, n: int)
    ensures
        encoded(kinds, words, n).len() == position_of(kinds, n),
    decreases n,
{
    if n > 0 {
        lemma_encoded_len(kinds, words, n - 1);
        crate::bytes::lemma_le_bytes_len(words[n - 1] as nat, kinds[n - 1].width());
    }
}

/// Where the bytes of value `k` stand.
proof fn lemma_encoded_at(kinds: Seq<Scalar>, words: Seq<u64>, k: int, n: int)
    requires
        0 <= k < n,
    ensures
        position_of(kinds, k) + kinds[k].width() <= encoded(kinds, words, n).len(),
        encoded(kinds, words, n).subrange(
            position_of(kinds, k) as int,
            (position_of(kinds, k) + kinds[k].width()) as int,
        ) == crate::bytes::le_bytes(words[k] as nat, kinds[k].width()),
    decreases n,
{
    lemma_encoded_len(kinds, words, n);
    lemma_encoded_len(kinds, words, n - 1);
    crate::bytes::lemma_le_bytes_len(words[n - 1] as nat, kinds[n - 1].width());
    let p = position_of(kinds, k) as int;
    let e = p + kinds[k].width();
    if k == n - 1 {
        assert(encoded(kinds, words, n).subrange(p, e) =~= crate::bytes::le_bytes(
            words[k] as nat,
            kinds[k].width(),
        ));
    } else {
        lemma_encoded_at(kinds, words, k, n - 1);
        assert(encoded(kinds, words, n).subrange(p, e) =~= encoded(kinds, words, n - 1).subrange(
            p,
            e,
        ));
    }
}

/// The bytes of a struct are as many as its datatype says, and the values that are read from them
/// are those that were written.
pub proof fn law_record_round_trip(fields: Seq<FieldModel>, words: Seq<u64>)
    requires
        are_values(all_slots(fields), words),
    ensures
        encoded(all_slots(fields), words, words.len() as int).len() == record_width(fields),
        decoded(all_slots(fields), encoded(all_slots(fields), words, words.len() as int)) == words,
{
    let kinds = all_slots(fields);
    let n = words.len() as int;
    let d = encoded(kinds, words, n);
    lemma_encoded_len(kinds, words, n);
    law_values_fill_record(fields, fields.len() as int);
    assert forall|k: int| 0 <= k < n implies decoded(kinds, d)[k] == words[k] by {
        assert(kinds[k].admits(words[k]));
        lemma_encoded_at(kinds, words, k, n);
        let w = kinds[k].width();
        crate::bytes::lemma_le_round_trip(words[k] as nat, w);
        crate::bytes::lemma_pow256_values();
        assert(words[k] as nat % crate::bytes::pow256(w) == words[k]) by (nonlinear_arith)
            requires
                words[k] < crate::bytes::pow256(w),
        ;
    }
    assert(decoded(kinds, d) =~= words);
}

/// The types of all values of a struct.
fn slots_of(fields: &[RecordField]) -> (kinds: Vec<Scalar>)
    ensures
        kinds@ == all_slots(fields.deep_view()),
{
    let ghost all = fields.deep_view();
    let mut kinds: Vec<Scalar> = Vec::new();
    let mut k: usize = 0;
    while k < fields.len()
        invariant
            k <= fields@.len(),
            all == fields.deep_view(),
            all.len() == fields@.len(),
            kinds@ == slots(all, k as int),
        decreases fields@.len() - k,
    {
        assert(all[k as int] == fields@[k as int].deep_view());
        let (scalar, count): (Scalar, usize) = match fields[k].kind {
            FieldType::Single(s) => (s, 1),
            FieldType::Array(s, n) => (s, n),
        };
        let ghost before = kinds@;
        let mut i: usize = 0;
        while i < count
            invariant
                i <= count,
                kinds@ =~= before + Seq::new(i as nat, |j: int| scalar),
            decreases count - i,
        {
            kinds.push(scalar);
            i += 1;
        }
        assert(kinds@ =~= slots(all, k + 1));
        k += 1;
    }
    kinds
}

/// Serializes the values of a struct to HDF5 compound raw bytes (little-endian).
pub fn to_bytes(fields: &[RecordField], words: &[u64]) -> (bytes: Vec<u8>)
    requires
        are_values(all_slots(fields.deep_view()), words@),
    ensures
        bytes@ == encoded(all_slots(fields.deep_view()), words@, words@.len() as int),
{
    let kinds = slots_of(fields);
    let mut bytes: Vec<u8> = Vec::new();
    let mut k: usize = 0;
    while k < words.len()
        invariant
            k <= words@.len(),
            words@.len() == kinds@.len(),
            bytes@ == encoded(kinds@, words@, k as int),
        decreases words@.len() - k,
    {
        put_le(&mut bytes, words[k], kinds[k].size());
        k += 1;
    }
    bytes
}

/// The value of the given type at a position.
fn read_word(d: &[u8], p: usize, kind: Scalar) -> (word: u64)
    requires
        p + kind.width() <= d@.len(),
    ensures
        word == word_at(d@, p as int, kind),
{
    let ghost s = d@.subrange(p as int, p + kind.width());
    proof {
        if kind.width() == 1 {
            reveal_with_fuel(crate::bytes::le_value, 2);
        } else if kind.width() == 2 {
            crate::bytes::lemma_le_value_2(s);
        } else if kind.width() == 4 {
            crate::bytes::lemma_le_value_4(s);
        } else {
            crate::bytes::lemma_le_value_8(s);
        }
    }
    match kind {
        Scalar::Bool => {
            if d[p] != 0 {
                1
            } else {
                0
            }
        },
        Scalar::I8 | Scalar::U8 => d[p] as u64,
        Scalar::I16 | Scalar::U16 => get_u16(d, p) as u64,
        Scalar::F32 | Scalar::I32 | Scalar::U32 => get_u32(d, p) as u64,
        Scalar::F64 | Scalar::I64 | Scalar::U64 => get_u64(d, p),
    }
}

/// Deserializes the values of a struct from HDF5 compound raw bytes (little-endian).
pub fn from_bytes(fields: &[RecordField], data: &[u8]) -> (words: Vec<u64>)
    requires
        record_width(fields.deep_view()) <= data@.len(),
    ensures
        words@ == decoded(all_slots(fields.deep_view()), data@),
{
    let kinds = slots_of(fields);
    let ghost total = record_width(fields.deep_view());
    proof {
        law_values_fill_record(fields.deep_view(), fields@.len() as int);
    }
    let mut words: Vec<u64> = Vec::with_capacity(kinds.len());
    let mut p: usize = 0;
    let mut k: usize = 0;
    while k < kinds.len()
        invariant
            k <= kinds@.len(),
            words@.len() == k,
            p == position_of(kinds@, k as int),
            position_of(kinds@, kinds@.len() as int) <= data@.len(),
            forall|i: int|
                0 <= i < k ==> #[trigger] words@[i] == word_at(
                    data@,
                    position_of(kinds@, i) as int,
                    kinds@[i],
                ),
        decreases kinds@.len() - k,
    {
        let kind = kinds[k];
        proof {
            lemma_positions_grow(kinds@, k + 1, kinds@.len() as int);
            assert(data.len() == data@.len());
        }
        words.push(read_word(data, p, kind));
        p = p + kind.size();
        k += 1;
    }
    assert(words@ =~= decoded(kinds@, data@));
    words
}

} // verus!

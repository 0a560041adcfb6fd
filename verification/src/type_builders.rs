//! Builder types for HDF5 datatypes, attributes, datasets, and groups.

use vstd::prelude::*;
use vstd::slice::slice_to_vec;
use vstd::utf8::*;
use crate::attribute::{AttributeMessage, AttributeModel};
use crate::bytes::{put_fill, put_le, put_slice, put_u32, put_u64};
use crate::chunked_write::{ChunkOptions, OptionsModel};
use crate::dataspace::{Dataspace, DataspaceModel, DataspaceType};
use crate::datatype::{
    CharacterSet,
    CompoundMember,
    CompoundMemberModel,
    Datatype,
    DatatypeByteOrder,
    DatatypeModel,
    EnumMember,
    EnumMemberModel,
    StringPadding,
};

verus! {

// ---- Compound / Enum type builders ----

/// Builder for constructing HDF5 compound (struct) datatypes.
pub struct CompoundTypeBuilder {
    fields: Vec<(String, Datatype)>,
}

/// The sum of the sizes of the first `n` fields.
pub open spec fn field_offset(fields: Seq<(Seq<char>, DatatypeModel)>, n: int) -> nat
    decreases n,
{
    if n <= 0 {
        0
    } else {
        field_offset(fields, n - 1) + fields[n - 1].1.size() as nat
    }
}

/// The compound type with the given fields, each behind the one in front of it.
pub open spec fn compound_type(fields: Seq<(Seq<char>, DatatypeModel)>) -> DatatypeModel {
    DatatypeModel::Compound {
        size: field_offset(fields, fields.len() as int) as u64 as u32,
        members: Seq::new(
            fields.len(),
            |i: int|
                CompoundMemberModel {
                    name: fields[i].0,
                    byte_offset: field_offset(fields, i) as u64,
                    datatype: fields[i].1,
                },
        ),
    }
}

impl CompoundTypeBuilder {
    /// The fields added so far.
    pub closed spec fn fields(self) -> Seq<(Seq<char>, DatatypeModel)> {
        self.fields.deep_view()
    }

    /// A builder without fields.
    pub fn new() -> (b: Self)
        ensures
            b.fields() == Seq::<(Seq<char>, DatatypeModel)>::empty(),
    {
        let fields: Vec<(String, Datatype)> = Vec::new();
        assert(fields.deep_view() =~= Seq::<(Seq<char>, DatatypeModel)>::empty());
        CompoundTypeBuilder { fields }
    }

    /// Add a named field with the given datatype.
    pub fn field(self, name: &str, datatype: Datatype) -> (b: Self)
        ensures
            b.fields() == self.fields().push((name@, datatype.model())),
    {
        let mut fields = self.fields;
        let ghost before = fields.deep_view();
        let ghost added = (name@, datatype.model());
        fields.push((name.to_owned(), datatype));
        assert(fields.deep_view() =~= before.push(added));
        CompoundTypeBuilder { fields }
    }

    /// Add an f64 field.
    pub fn f64_field(self, name: &str) -> (b: Self)
        ensures
            b.fields() == self.fields().push(
                (name@, crate::datatype::double_type(DatatypeByteOrder::LittleEndian)),
            ),
    {
        self.field(name, Datatype::f64_le())
    }

    /// Add an f32 field.
    pub fn f32_field(self, name: &str) -> (b: Self)
        ensures
            b.fields() == self.fields().push(
                (name@, crate::datatype::single_type(DatatypeByteOrder::LittleEndian)),
            ),
    {
        self.field(name, Datatype::f32_le())
    }

    /// Add an i32 field.
    pub fn i32_field(self, name: &str) -> (b: Self)
        ensures
            b.fields() == self.fields().push(
                (
                    name@,
                    crate::datatype::integer_type(4, true, DatatypeByteOrder::LittleEndian),
                ),
            ),
    {
        self.field(name, Datatype::i32_le())
    }

    /// Add an i64 field.
    pub fn i64_field(self, name: &str) -> (b: Self)
        ensures
            b.fields() == self.fields().push(
                (
                    name@,
                    crate::datatype::integer_type(8, true, DatatypeByteOrder::LittleEndian),
                ),
            ),
    {
        self.field(name, Datatype::i64_le())
    }

    /// Add a u8 field.
    pub fn u8_field(self, name: &str) -> (b: Self)
        ensures
            b.fields() == self.fields().push(
                (
                    name@,
                    crate::datatype::integer_type(1, false, DatatypeByteOrder::LittleEndian),
                ),
            ),
    {
        self.field(name, Datatype::u8_le())
    }

    /// Build the compound datatype.
    pub fn build(self) -> (t: Datatype)
        requires
            field_offset(self.fields(), self.fields().len() as int) <= u64::MAX,
        ensures
            t.model() == compound_type(self.fields()),
    {
        let ghost all = self.fields.deep_view();
        let mut offset: u64 = 0;
        let mut members: Vec<CompoundMember> = Vec::with_capacity(self.fields.len());
        let mut k: usize = 0;
        while k < self.fields.len()
            invariant
                k <= self.fields@.len(),
                all == self.fields.deep_view(),
                field_offset(all, all.len() as int) <= u64::MAX,
                offset == field_offset(all, k as int),
                members@.len() == k,
                forall|i: int|
                    0 <= i < k ==> (#[trigger] members@[i]).model() == (CompoundMemberModel {
                        name: all[i].0,
                        byte_offset: field_offset(all, i) as u64,
                        datatype: all[i].1,
                    }),
            decreases self.fields@.len() - k,
        {
            assert(all[k as int] == (self.fields@[k as int].0@, self.fields@[k as int].1.model()));
            proof {
                lemma_offset_grows(all, k + 1, all.len() as int);
            }
            let size: u32 = self.fields[k].1.type_size();
            members.push(
                CompoundMember {
                    name: self.fields[k].0.clone(),
                    byte_offset: offset,
                    datatype: self.fields[k].1.clone(),
                },
            );
            offset += size as u64;
            k += 1;
        }
        let size: u32 = offset as u32;
        proof {
            crate::datatype::lemma_compound_model(size, members);
            assert(crate::datatype::member_models(members@) =~= compound_type(
                all,
            )->Compound_members);
        }
        Datatype::Compound { size, members }
    }
}

proof fn lemma_offset_grows(fields: Seq<(Seq<char>, DatatypeModel)>, k: int, n: int)
    requires
        0 <= k <= n,
    ensures
        field_offset(fields, k) <= field_offset(fields, n),
    decreases n - k,
{
    if k < n {
        lemma_offset_grows(fields, k, n - 1);
    }
}

impl Default for CompoundTypeBuilder {
    fn default() -> (b: Self)
        ensures
            b.fields() == Seq::<(Seq<char>, DatatypeModel)>::empty(),
    {
        Self::new()
    }
}

/// Builder for constructing HDF5 enumeration datatypes.
pub struct EnumTypeBuilder {
    base_type: Datatype,
    members: Vec<EnumMember>,
}

impl EnumTypeBuilder {
    /// The base type.
    pub closed spec fn base(self) -> DatatypeModel {
        self.base_type.model()
    }

    /// The members added so far.
    pub closed spec fn members(self) -> Seq<EnumMemberModel> {
        crate::datatype::enum_models(self.members@)
    }

    /// The base type is an integer type, and each value has its length.
    #[verifier::type_invariant]
    spec fn is_typed(self) -> bool {
        &&& crate::datatype::representable(self.base())
        &&& self.base().size() <= 8
        &&& forall|i: int|
            0 <= i < self.members@.len() ==> (#[trigger] self.members@[i]).value@.len()
                == self.base().size()
    }

    /// Create a new enum builder with i32 base type.
    pub fn i32_based() -> (b: Self)
        ensures
            b.base() == crate::datatype::integer_type(4, true, DatatypeByteOrder::LittleEndian),
            b.members() == Seq::<EnumMemberModel>::empty(),
    {
        let b = EnumTypeBuilder { base_type: Datatype::i32_le(), members: Vec::new() };
        assert(b.members() =~= Seq::<EnumMemberModel>::empty());
        b
    }

    /// Create a new enum builder with u8 base type.
    pub fn u8_based() -> (b: Self)
        ensures
            b.base() == crate::datatype::integer_type(1, false, DatatypeByteOrder::LittleEndian),
            b.members() == Seq::<EnumMemberModel>::empty(),
    {
        let b = EnumTypeBuilder { base_type: Datatype::u8_le(), members: Vec::new() };
        assert(b.members() =~= Seq::<EnumMemberModel>::empty());
        b
    }

    fn with_member(self, name: &str, word: u64) -> (b: Self)
        ensures
            b.base() == self.base(),
            b.members() == self.members().push(
                EnumMemberModel {
                    name: name@,
                    value: crate::bytes::le_bytes(word as nat, self.base().size() as nat),
                },
            ),
    {
        proof {
            use_type_invariant(&self);
        }
        let size: usize = self.base_type.type_size() as usize;
        let mut value: Vec<u8> = Vec::new();
        put_le(&mut value, word, size);
        assert(value@ =~= crate::bytes::le_bytes(word as nat, size as nat));
        let mut members = self.members;
        let ghost before = crate::datatype::enum_models(members@);
        let ghost added = EnumMemberModel { name: name@, value: value@ };
        proof {
            crate::bytes::lemma_le_bytes_len(word as nat, size as nat);
        }
        members.push(EnumMember { name: name.to_owned(), value });
        assert(crate::datatype::enum_models(members@) =~= before.push(added));
        EnumTypeBuilder { base_type: self.base_type, members }
    }

    /// Add a named value: as many of its low bytes as the base type has.
    pub fn value(self, name: &str, val: i32) -> (b: Self)
        ensures
            b.base() == self.base(),
            b.members() == self.members().push(
                EnumMemberModel {
                    name: name@,
                    value: crate::bytes::le_bytes(val as u32 as nat, self.base().size() as nat),
                },
            ),
    {
        self.with_member(name, val as u32 as u64)
    }

    /// Add a named u8 value, in as many bytes as the base type has.
    pub fn u8_value(self, name: &str, val: u8) -> (b: Self)
        ensures
            b.base() == self.base(),
            b.members() == self.members().push(
                EnumMemberModel {
                    name: name@,
                    value: crate::bytes::le_bytes(val as nat, self.base().size() as nat),
                },
            ),
    {
        self.with_member(name, val as u64)
    }

    /// Build the enumeration datatype. Its message gives it back, as far as the names and their
    /// number fit in one.
    pub fn build(self) -> (t: Datatype)
        ensures
            t.model() == (DatatypeModel::Enumeration {
                size: self.base().size(),
                base_type: Box::new(self.base()),
                members: self.members(),
            }),
            self.members().len() <= 0xFFFF && (forall|i: int|
                0 <= i < self.members().len() ==> crate::datatype::is_name(
                    (#[trigger] self.members()[i]).name,
                )) ==> crate::datatype::representable(t.model()),
    {
        proof {
            use_type_invariant(&self);
        }
        let size: u32 = self.base_type.type_size();
        Datatype::Enumeration { size, base_type: Box::new(self.base_type), members: self.members }
    }
}

// ---- Attribute values ----

/// Convenient attribute values for the write API. Floating-point numbers are given by their bits.
#[derive(Debug)]
pub enum AttrValue {
    /// The bits of a double-precision number.
    F64(u64),
    /// The bits of double-precision numbers.
    F64Array(Vec<u64>),
    I64(i64),
    I64Array(Vec<i64>),
    U64(u64),
    String(String),
    StringArray(Vec<String>),
}

/// The content of an [`AttrValue`].
pub enum AttrModel {
    F64(u64),
    F64Array(Seq<u64>),
    I64(i64),
    I64Array(Seq<i64>),
    U64(u64),
    String(Seq<char>),
    StringArray(Seq<Seq<char>>),
}

impl DeepView for AttrValue {
    type V = AttrModel;

    open spec fn deep_view(&self) -> AttrModel {
        match self {
            AttrValue::F64(v) => AttrModel::F64(*v),
            AttrValue::F64Array(a) => AttrModel::F64Array(a@),
            AttrValue::I64(v) => AttrModel::I64(*v),
            AttrValue::I64Array(a) => AttrModel::I64Array(a@),
            AttrValue::U64(v) => AttrModel::U64(*v),
            AttrValue::String(s) => AttrModel::String(s@),
            AttrValue::StringArray(a) => AttrModel::StringArray(a.deep_view()),
        }
    }
}

fn clone_strings(list: &Vec<String>) -> (copy: Vec<String>)
    ensures
        copy.deep_view() == list.deep_view(),
{
    let mut copy: Vec<String> = Vec::with_capacity(list.len());
    let mut k: usize = 0;
    while k < list.len()
        invariant
            k == copy@.len() <= list@.len(),
            forall|i: int| 0 <= i < k ==> (#[trigger] copy@[i])@ == list@[i]@,
        decreases list@.len() - k,
    {
        copy.push(list[k].clone());
        k += 1;
    }
    assert(copy.deep_view() =~= list.deep_view());
    copy
}

impl Clone for AttrValue {
    fn clone(&self) -> (copy: Self)
        ensures
            copy.deep_view() == self.deep_view(),
    {
        match self {
            AttrValue::F64(v) => AttrValue::F64(*v),
            AttrValue::F64Array(a) => AttrValue::F64Array(slice_to_vec(a.as_slice())),
            AttrValue::I64(v) => AttrValue::I64(*v),
            AttrValue::I64Array(a) => AttrValue::I64Array(slice_to_vec(a.as_slice())),
            AttrValue::U64(v) => AttrValue::U64(*v),
            AttrValue::String(s) => AttrValue::String(s.clone()),
            AttrValue::StringArray(a) => AttrValue::StringArray(clone_strings(a)),
        }
    }
}

// ---- Attribute helper ----

/// The bytes of the first `n` numbers, eight each.
pub open spec fn words_bytes(values: Seq<u64>, n: int) -> Seq<u8>
    decreases n,
{
    if n <= 0 {
        Seq::empty()
    } else {
        words_bytes(values, n - 1) + crate::bytes::le_bytes(values[n - 1] as nat, 8)
    }
}

/// The bytes of the first `n` numbers, four each.
pub open spec fn half_words_bytes(values: Seq<u32>, n: int) -> Seq<u8>
    decreases n,
{
    if n <= 0 {
        Seq::empty()
    } else {
        half_words_bytes(values, n - 1) + crate::bytes::le_bytes(values[n - 1] as nat, 4)
    }
}

/// The numbers in two's complement.
pub open spec fn complemented(values: Seq<i64>) -> Seq<u64> {
    Seq::new(values.len(), |i: int| values[i] as u64)
}

/// The numbers in two's complement.
pub open spec fn complemented32(values: Seq<i32>) -> Seq<u32> {
    Seq::new(values.len(), |i: int| values[i] as u32)
}

/// The length in bytes of the longest of the first `n` texts.
pub open spec fn longest(texts: Seq<Seq<char>>, n: int) -> nat
    decreases n,
{
    if n <= 0 {
        0
    } else {
        let before = longest(texts, n - 1);
        let len = encode_utf8(texts[n - 1]).len();
        if len > before {
            len
        } else {
            before
        }
    }
}

/// The bytes of the first `n` texts, each padded with zeros to `width`.
pub open spec fn texts_bytes(texts: Seq<Seq<char>>, width: nat, n: int) -> Seq<u8>
    decreases n,
{
    if n <= 0 {
        Seq::empty()
    } else {
        let text = encode_utf8(texts[n - 1]);
        texts_bytes(texts, width, n - 1) + (text + Seq::new(
            (width - text.len()) as nat,
            |i: int| 0u8,
        ))
    }
}

/// The data space of a single value.
pub open spec fn scalar_space() -> DataspaceModel {
    DataspaceModel {
        space_type: DataspaceType::Scalar,
        rank: 0,
        dimensions: Seq::empty(),
        max_dimensions: None,
    }
}

/// The data space of `n` values.
pub open spec fn line_space(n: u64) -> DataspaceModel {
    DataspaceModel {
        space_type: DataspaceType::Simple,
        rank: 1,
        dimensions: seq![n],
        max_dimensions: None,
    }
}

/// The type of texts of `size` bytes.
pub open spec fn text_type(size: u32) -> DatatypeModel {
    DatatypeModel::String {
        size,
        padding: StringPadding::NullPad,
        charset: CharacterSet::Utf8,
    }
}

/// The attribute with the given name and value.
pub open spec fn attribute_for(name: Seq<char>, value: AttrModel) -> AttributeModel {
    let le = DatatypeByteOrder::LittleEndian;
    match value {
        AttrModel::F64(v) => AttributeModel {
            name,
            datatype: crate::datatype::double_type(le),
            dataspace: scalar_space(),
            raw_data: crate::bytes::le_bytes(v as nat, 8),
        },
        AttrModel::F64Array(a) => AttributeModel {
            name,
            datatype: crate::datatype::double_type(le),
            dataspace: line_space(a.len() as u64),
            raw_data: words_bytes(a, a.len() as int),
        },
        AttrModel::I64(v) => AttributeModel {
            name,
            datatype: crate::datatype::integer_type(8, true, le),
            dataspace: scalar_space(),
            raw_data: crate::bytes::le_bytes(v as u64 as nat, 8),
        },
        AttrModel::I64Array(a) => AttributeModel {
            name,
            datatype: crate::datatype::integer_type(8, true, le),
            dataspace: line_space(a.len() as u64),
            raw_data: words_bytes(complemented(a), a.len() as int),
        },
        AttrModel::U64(v) => AttributeModel {
            name,
            datatype: crate::datatype::integer_type(8, false, le),
            dataspace: scalar_space(),
            raw_data: crate::bytes::le_bytes(v as nat, 8),
        },
        AttrModel::String(s) => AttributeModel {
            name,
            datatype: text_type(encode_utf8(s).len() as u32),
            dataspace: scalar_space(),
            raw_data: encode_utf8(s),
        },
        AttrModel::StringArray(a) => AttributeModel {
            name,
            datatype: text_type(longest(a, a.len() as int) as u32),
            dataspace: line_space(a.len() as u64),
            raw_data: texts_bytes(a, longest(a, a.len() as int), a.len() as int),
        },
    }
}

/// The data space of a single value.
pub fn scalar_ds() -> (s: Dataspace)
    ensures
        s.deep_view() == scalar_space(),
{
    let s = Dataspace {
        space_type: DataspaceType::Scalar,
        rank: 0,
        dimensions: Vec::new(),
        max_dimensions: None,
    };
    assert(s.dimensions@ =~= Seq::<u64>::empty());
    s
}

/// The data space of `n` values.
pub fn simple_1d(n: u64) -> (s: Dataspace)
    ensures
        s.deep_view() == line_space(n),
{
    let mut dimensions: Vec<u64> = Vec::new();
    dimensions.push(n);
    assert(dimensions@ =~= seq![n]);
    Dataspace { space_type: DataspaceType::Simple, rank: 1, dimensions, max_dimensions: None }
}

fn words_to_bytes(values: &[u64]) -> (raw: Vec<u8>)
    ensures
        raw@ == words_bytes(values@, values@.len() as int),
{
    let mut raw: Vec<u8> = Vec::new();
    let mut k: usize = 0;
    while k < values.len()
        invariant
            k <= values@.len(),
            raw@ == words_bytes(values@, k as int),
        decreases values@.len() - k,
    {
        put_u64(&mut raw, values[k]);
        k += 1;
    }
    raw
}

fn half_words_to_bytes(values: &[u32]) -> (raw: Vec<u8>)
    ensures
        raw@ == half_words_bytes(values@, values@.len() as int),
{
    let mut raw: Vec<u8> = Vec::new();
    let mut k: usize = 0;
    while k < values.len()
        invariant
            k <= values@.len(),
            raw@ == half_words_bytes(values@, k as int),
        decreases values@.len() - k,
    {
        put_u32(&mut raw, values[k]);
        k += 1;
    }
    raw
}

fn complement(values: &[i64]) -> (words: Vec<u64>)
    ensures
        words@ == complemented(values@),
{
    let mut words: Vec<u64> = Vec::with_capacity(values.len());
    let mut k: usize = 0;
    while k < values.len()
        invariant
            k == words@.len() <= values@.len(),
            forall|i: int| 0 <= i < k ==> #[trigger] words@[i] == values@[i] as u64,
        decreases values@.len() - k,
    {
        words.push(values[k] as u64);
        k += 1;
    }
    assert(words@ =~= complemented(values@));
    words
}

fn complement32(values: &[i32]) -> (words: Vec<u32>)
    ensures
        words@ == complemented32(values@),
{
    let mut words: Vec<u32> = Vec::with_capacity(values.len());
    let mut k: usize = 0;
    while k < values.len()
        invariant
            k == words@.len() <= values@.len(),
            forall|i: int| 0 <= i < k ==> #[trigger] words@[i] == values@[i] as u32,
        decreases values@.len() - k,
    {
        words.push(values[k] as u32);
        k += 1;
    }
    assert(words@ =~= complemented32(values@));
    words
}

fn longest_text(texts: &Vec<String>) -> (n: usize)
    ensures
        n == longest(texts.deep_view(), texts@.len() as int),
{
    let ghost all = texts.deep_view();
    let mut n: usize = 0;
    let mut k: usize = 0;
    while k < texts.len()
        invariant
            k <= texts@.len(),
            all == texts.deep_view(),
            n == longest(all, k as int),
        decreases texts@.len() - k,
    {
        assert(all[k as int] == texts@[k as int]@);
        let len: usize = texts[k].as_str().as_bytes().len();
        if len > n {
            n = len;
        }
        k += 1;
    }
    n
}

proof fn lemma_longest(texts: Seq<Seq<char>>, k: int, n: int)
    requires
        0 <= k < n,
    ensures
        encode_utf8(texts[k]).len() <= longest(texts, n),
    decreases n,
{
    if k < n - 1 {
        lemma_longest(texts, k, n - 1);
    }
}

fn texts_to_bytes(texts: &Vec<String>, width: usize) -> (raw: Vec<u8>)
    requires
        width == longest(texts.deep_view(), texts@.len() as int),
    ensures
        raw@ == texts_bytes(texts.deep_view(), width as nat, texts@.len() as int),
{
    let ghost all = texts.deep_view();
    let mut raw: Vec<u8> = Vec::new();
    let mut k: usize = 0;
    while k < texts.len()
        invariant
            k <= texts@.len(),
            all == texts.deep_view(),
            width == longest(all, texts@.len() as int),
            raw@ == texts_bytes(all, width as nat, k as int),
        decreases texts@.len() - k,
    {
        assert(all[k as int] == texts@[k as int]@);
        proof {
            lemma_longest(all, k as int, texts@.len() as int);
        }
        let bytes = texts[k].as_str().as_bytes();
        let ghost before = raw@;
        put_slice(&mut raw, bytes);
        put_fill(&mut raw, 0, width - bytes.len());
        assert(raw@ =~= texts_bytes(all, width as nat, k + 1));
        k += 1;
    }
    raw
}

fn number_attribute(name: &str, datatype: Datatype, dataspace: Dataspace, raw_data: Vec<u8>) -> (a:
    AttributeMessage)
    ensures
        a.deep_view() == (AttributeModel {
            name: name@,
            datatype: datatype.model(),
            dataspace: dataspace.deep_view(),
            raw_data: raw_data@,
        }),
{
    AttributeMessage { name: name.to_owned(), datatype, dataspace, raw_data }
}

fn word_bytes(v: u64) -> (raw: Vec<u8>)
    ensures
        raw@ == crate::bytes::le_bytes(v as nat, 8),
{
    let mut raw: Vec<u8> = Vec::new();
    put_u64(&mut raw, v);
    assert(raw@ =~= crate::bytes::le_bytes(v as nat, 8));
    raw
}

/// The attribute message for a name and a value.
pub fn build_attr_message(name: &str, value: &AttrValue) -> (a: AttributeMessage)
    ensures
        a.deep_view() == attribute_for(name@, value.deep_view()),
{
    match value {
        AttrValue::F64(v) => number_attribute(
            name,
            Datatype::f64_le(),
            scalar_ds(),
            word_bytes(*v),
        ),
        AttrValue::F64Array(arr) => number_attribute(
            name,
            Datatype::f64_le(),
            simple_1d(arr.len() as u64),
            words_to_bytes(arr.as_slice()),
        ),
        AttrValue::I64(v) => number_attribute(
            name,
            Datatype::i64_le(),
            scalar_ds(),
            word_bytes(*v as u64),
        ),
        AttrValue::I64Array(arr) => {
            let words = complement(arr.as_slice());
            number_attribute(
                name,
                Datatype::i64_le(),
                simple_1d(arr.len() as u64),
                words_to_bytes(words.as_slice()),
            )
        },
        AttrValue::U64(v) => number_attribute(
            name,
            Datatype::u64_le(),
            scalar_ds(),
            word_bytes(*v),
        ),
        AttrValue::String(s) => {
            let bytes = s.as_str().as_bytes();
            number_attribute(
                name,
                Datatype::String {
                    size: bytes.len() as u32,
                    padding: StringPadding::NullPad,
                    charset: CharacterSet::Utf8,
                },
                scalar_ds(),
                slice_to_vec(bytes),
            )
        },
        AttrValue::StringArray(arr) => {
            let max_len: usize = longest_text(arr);
            number_attribute(
                name,
                Datatype::String {
                    size: max_len as u32,
                    padding: StringPadding::NullPad,
                    charset: CharacterSet::Utf8,
                },
                simple_1d(arr.len() as u64),
                texts_to_bytes(arr, max_len),
            )
        },
    }
}

// ---- Dataset builder ----

/// Configuration for SHINES provenance metadata.
#[derive(Debug, Clone)]
pub struct ProvenanceConfig {
    pub creator: String,
    pub timestamp: String,
    pub source: Option<String>,
}

/// The content of a [`ProvenanceConfig`].
pub struct ProvenanceModel {
    pub creator: Seq<char>,
    pub timestamp: Seq<char>,
    pub source: Option<Seq<char>>,
}

impl DeepView for ProvenanceConfig {
    type V = ProvenanceModel;

    open spec fn deep_view(&self) -> ProvenanceModel {
        ProvenanceModel {
            creator: self.creator@,
            timestamp: self.timestamp@,
            source: match self.source {
                Some(text) => Some(text@),
                None => None,
            },
        }
    }
}

/// Builder for datasets.
pub struct DatasetBuilder {
    pub name: String,
    pub datatype: Option<Datatype>,
    pub shape: Option<Vec<u64>>,
    pub maxshape: Option<Vec<u64>>,
    pub data: Option<Vec<u8>>,
    pub attrs: Vec<(String, AttrValue)>,
    pub chunk_options: ChunkOptions,
    pub provenance: Option<ProvenanceConfig>,
}

/// The content of a [`DatasetBuilder`].
pub struct BuilderModel {
    pub name: Seq<char>,
    pub datatype: Option<DatatypeModel>,
    pub shape: Option<Seq<u64>>,
    pub maxshape: Option<Seq<u64>>,
    pub data: Option<Seq<u8>>,
    pub attrs: Seq<(Seq<char>, AttrModel)>,
    pub chunk_options: OptionsModel,
    pub provenance: Option<ProvenanceModel>,
}

/// The content of an optional list.
pub open spec fn optional<T>(list: Option<Vec<T>>) -> Option<Seq<T>> {
    match list {
        Some(v) => Some(v@),
        None => None,
    }
}

impl DeepView for DatasetBuilder {
    type V = BuilderModel;

    open spec fn deep_view(&self) -> BuilderModel {
        BuilderModel {
            name: self.name@,
            datatype: match self.datatype {
                Some(t) => Some(t.model()),
                None => None,
            },
            shape: optional(self.shape),
            maxshape: optional(self.maxshape),
            data: optional(self.data),
            attrs: self.attrs.deep_view(),
            chunk_options: self.chunk_options.deep_view(),
            provenance: match self.provenance {
                Some(p) => Some(p.deep_view()),
                None => None,
            },
        }
    }
}

/// A builder for which nothing but the name is set.
pub open spec fn named(name: Seq<char>) -> BuilderModel {
    BuilderModel {
        name,
        datatype: None,
        shape: None,
        maxshape: None,
        data: None,
        attrs: Seq::empty(),
        chunk_options: crate::chunked_write::no_options(),
        provenance: None,
    }
}

impl BuilderModel {
    /// The builder with the given data: `n` elements of a type. The shape is set if it was not.
    pub open spec fn with_data(self, datatype: DatatypeModel, data: Seq<u8>, n: u64) -> BuilderModel {
        BuilderModel {
            datatype: Some(datatype),
            data: Some(data),
            shape: if self.shape is None {
                Some(seq![n])
            } else {
                self.shape
            },
            ..self
        }
    }
}

impl DatasetBuilder {
    /// A builder for a dataset of which nothing but the name is known.
    pub fn new(name: &str) -> (b: Self)
        ensures
            b.deep_view() == named(name@),
    {
        let b = DatasetBuilder {
            name: name.to_owned(),
            datatype: None,
            shape: None,
            maxshape: None,
            data: None,
            attrs: Vec::new(),
            chunk_options: ChunkOptions::default(),
            provenance: None,
        };
        assert(b.attrs.deep_view() =~= Seq::<(Seq<char>, AttrModel)>::empty());
        b
    }

    fn put_data(&mut self, datatype: Datatype, data: Vec<u8>, n: u64)
        ensures
            final(self).deep_view() == old(self).deep_view().with_data(
                datatype.model(),
                data@,
                n,
            ),
    {
        self.datatype = Some(datatype);
        self.data = Some(data);
        if self.shape.is_none() {
            let mut shape: Vec<u64> = Vec::new();
            shape.push(n);
            assert(shape@ =~= seq![n]);
            self.shape = Some(shape);
        }
    }

    /// Set double-precision data, given by the bits of the numbers.
    pub fn with_f64_data(&mut self, bits: &[u64]) -> (r: &mut Self)
        ensures
            r.deep_view() == old(self).deep_view().with_data(
                crate::datatype::double_type(DatatypeByteOrder::LittleEndian),
                words_bytes(bits@, bits@.len() as int),
                bits@.len() as u64,
            ),
            *final(self) == *final(r),
    {
        let raw = words_to_bytes(bits);
        self.put_data(Datatype::f64_le(), raw, bits.len() as u64);
        self
    }

    /// Set single-precision data, given by the bits of the numbers.
    pub fn with_f32_data(&mut self, bits: &[u32]) -> (r: &mut Self)
        ensures
            r.deep_view() == old(self).deep_view().with_data(
                crate::datatype::single_type(DatatypeByteOrder::LittleEndian),
                half_words_bytes(bits@, bits@.len() as int),
                bits@.len() as u64,
            ),
            *final(self) == *final(r),
    {
        let raw = half_words_to_bytes(bits);
        self.put_data(Datatype::f32_le(), raw, bits.len() as u64);
        self
    }

    /// Set i32 data.
    pub fn with_i32_data(&mut self, data: &[i32]) -> (r: &mut Self)
        ensures
            r.deep_view() == old(self).deep_view().with_data(
                crate::datatype::integer_type(4, true, DatatypeByteOrder::LittleEndian),
                half_words_bytes(complemented32(data@), data@.len() as int),
                data@.len() as u64,
            ),
            *final(self) == *final(r),
    {
        let words = complement32(data);
        let raw = half_words_to_bytes(words.as_slice());
        self.put_data(Datatype::i32_le(), raw, data.len() as u64);
        self
    }

    /// Set i64 data.
    pub fn with_i64_data(&mut self, data: &[i64]) -> (r: &mut Self)
        ensures
            r.deep_view() == old(self).deep_view().with_data(
                crate::datatype::integer_type(8, true, DatatypeByteOrder::LittleEndian),
                words_bytes(complemented(data@), data@.len() as int),
                data@.len() as u64,
            ),
            *final(self) == *final(r),
    {
        let words = complement(data);
        let raw = words_to_bytes(words.as_slice());
        self.put_data(Datatype::i64_le(), raw, data.len() as u64);
        self
    }

    /// Set u8 data.
    pub fn with_u8_data(&mut self, data: &[u8]) -> (r: &mut Self)
        ensures
            r.deep_view() == old(self).deep_view().with_data(
                crate::datatype::integer_type(1, false, DatatypeByteOrder::LittleEndian),
                data@,
                data@.len() as u64,
            ),
            *final(self) == *final(r),
    {
        self.put_data(Datatype::u8_le(), slice_to_vec(data), data.len() as u64);
        self
    }

    /// Write a compound (struct) dataset.
    pub fn with_compound_data(&mut self, datatype: Datatype, raw_data: Vec<u8>, num_elements: u64) -> (r: &mut Self)
        ensures
            r.deep_view() == old(self).deep_view().with_data(
                datatype.model(),
                raw_data@,
                num_elements,
            ),
            *final(self) == *final(r),
    {
        self.put_data(datatype, raw_data, num_elements);
        self
    }

    /// Write an enum dataset with i32 values.
    pub fn with_enum_i32_data(&mut self, datatype: Datatype, values: &[i32]) -> (r: &mut Self)
        ensures
            r.deep_view() == old(self).deep_view().with_data(
                datatype.model(),
                half_words_bytes(complemented32(values@), values@.len() as int),
                values@.len() as u64,
            ),
            *final(self) == *final(r),
    {
        let words = complement32(values);
        let raw = half_words_to_bytes(words.as_slice());
        self.put_data(datatype, raw, values.len() as u64);
        self
    }

    /// Write an enum dataset with u8 values.
    pub fn with_enum_u8_data(&mut self, datatype: Datatype, values: &[u8]) -> (r: &mut Self)
        ensures
            r.deep_view() == old(self).deep_view().with_data(
                datatype.model(),
                values@,
                values@.len() as u64,
            ),
            *final(self) == *final(r),
    {
        self.put_data(datatype, slice_to_vec(values), values.len() as u64);
        self
    }

    /// Write an array-typed dataset.
    pub fn with_array_data(
        &mut self,
        base_type: Datatype,
        array_dims: &[u32],
        raw_data: Vec<u8>,
        num_elements: u64,
    ) -> (r: &mut Self)
        ensures
            r.deep_view() == old(self).deep_view().with_data(
                DatatypeModel::Array {
                    base_type: Box::new(base_type.model()),
                    dimensions: array_dims@,
                },
                raw_data@,
                num_elements,
            ),
            *final(self) == *final(r),
    {
        let datatype = Datatype::Array {
            base_type: Box::new(base_type),
            dimensions: slice_to_vec(array_dims),
        };
        self.put_data(datatype, raw_data, num_elements);
        self
    }

    /// Set the shape.
    pub fn with_shape(&mut self, shape: &[u64]) -> (r: &mut Self)
        ensures
            r.deep_view() == (BuilderModel {
                shape: Some(shape@),
                ..old(self).deep_view()
            }),
            *final(self) == *final(r),
    {
        self.shape = Some(slice_to_vec(shape));
        self
    }

    /// Set maximum dimensions for a resizable dataset.
    /// Use `u64::MAX` for unlimited dimensions.
    pub fn with_maxshape(&mut self, maxshape: &[u64]) -> (r: &mut Self)
        ensures
            r.deep_view() == (BuilderModel {
                maxshape: Some(maxshape@),
                ..old(self).deep_view()
            }),
            *final(self) == *final(r),
    {
        self.maxshape = Some(slice_to_vec(maxshape));
        self
    }

    /// Add an attribute.
    pub fn set_attr(&mut self, name: &str, value: AttrValue) -> (r: &mut Self)
        ensures
            r.deep_view() == (BuilderModel {
                attrs: old(self).deep_view().attrs.push((name@, value.deep_view())),
                ..old(self).deep_view()
            }),
            *final(self) == *final(r),
    {
        put_attr(&mut self.attrs, name, value);
        self
    }

    /// Enable chunked storage with given chunk dimensions.
    pub fn with_chunks(&mut self, chunk_dims: &[u64]) -> (r: &mut Self)
        ensures
            r.deep_view() == (BuilderModel {
                chunk_options: OptionsModel {
                    chunk_dims: Some(chunk_dims@),
                    ..old(self).deep_view().chunk_options
                },
                ..old(self).deep_view()
            }),
            *final(self) == *final(r),
    {
        self.chunk_options.chunk_dims = Some(slice_to_vec(chunk_dims));
        self
    }

    /// Enable deflate compression (implies chunked if not already set).
    pub fn with_deflate(&mut self, level: u32) -> (r: &mut Self)
        ensures
            r.deep_view() == (BuilderModel {
                chunk_options: OptionsModel {
                    deflate_level: Some(level),
                    ..old(self).deep_view().chunk_options
                },
                ..old(self).deep_view()
            }),
            *final(self) == *final(r),
    {
        self.chunk_options.deflate_level = Some(level);
        self
    }

    /// Enable shuffle filter (usually combined with deflate).
    pub fn with_shuffle(&mut self) -> (r: &mut Self)
        ensures
            r.deep_view() == (BuilderModel {
                chunk_options: OptionsModel {
                    shuffle: true,
                    ..old(self).deep_view().chunk_options
                },
                ..old(self).deep_view()
            }),
            *final(self) == *final(r),
    {
        self.chunk_options.shuffle = true;
        self
    }

    /// Enable fletcher32 checksum.
    pub fn with_fletcher32(&mut self) -> (r: &mut Self)
        ensures
            r.deep_view() == (BuilderModel {
                chunk_options: OptionsModel {
                    fletcher32: true,
                    ..old(self).deep_view().chunk_options
                },
                ..old(self).deep_view()
            }),
            *final(self) == *final(r),
    {
        self.chunk_options.fletcher32 = true;
        self
    }

    /// Attach SHINES provenance metadata (creator, timestamp, source).
    pub fn with_provenance(&mut self, creator: &str, timestamp: &str, source: Option<&str>) -> (r: &mut Self)
        ensures
            r.deep_view() == (BuilderModel {
                provenance: Some(
                    ProvenanceModel {
                        creator: creator@,
                        timestamp: timestamp@,
                        source: match source {
                            Some(text) => Some(text@),
                            None => None,
                        },
                    },
                ),
                ..old(self).deep_view()
            }),
            *final(self) == *final(r),
    {
        self.provenance = Some(
            ProvenanceConfig {
                creator: creator.to_owned(),
                timestamp: timestamp.to_owned(),
                source: match source {
                    Some(text) => Some(text.to_owned()),
                    None => None,
                },
            },
        );
        self
    }
}

fn put_attr(attrs: &mut Vec<(String, AttrValue)>, name: &str, value: AttrValue)
    ensures
        final(attrs).deep_view() == old(attrs).deep_view().push((name@, value.deep_view())),
{
    let ghost added = (name@, value.deep_view());
    attrs.push((name.to_owned(), value));
    assert(attrs.deep_view() =~= old(attrs).deep_view().push(added));
}

// ---- Group builder ----

/// Builder for groups.
pub struct GroupBuilder {
    pub name: String,
    pub datasets: Vec<DatasetBuilder>,
    pub attrs: Vec<(String, AttrValue)>,
}

/// The content of a [`GroupBuilder`] or of a [`FinishedGroup`].
pub struct GroupModel {
    pub name: Seq<char>,
    pub datasets: Seq<BuilderModel>,
    pub attrs: Seq<(Seq<char>, AttrModel)>,
}

impl DeepView for GroupBuilder {
    type V = GroupModel;

    open spec fn deep_view(&self) -> GroupModel {
        GroupModel {
            name: self.name@,
            datasets: self.datasets.deep_view(),
            attrs: self.attrs.deep_view(),
        }
    }
}

/// A finished group ready for the file writer.
pub struct FinishedGroup {
    pub name: String,
    pub datasets: Vec<DatasetBuilder>,
    pub attrs: Vec<(String, AttrValue)>,
}

impl DeepView for FinishedGroup {
    type V = GroupModel;

    open spec fn deep_view(&self) -> GroupModel {
        GroupModel {
            name: self.name@,
            datasets: self.datasets.deep_view(),
            attrs: self.attrs.deep_view(),
        }
    }
}

impl GroupBuilder {
    /// A builder for a group without datasets and attributes.
    pub fn new(name: &str) -> (g: Self)
        ensures
            g.deep_view() == (GroupModel {
                name: name@,
                datasets: Seq::empty(),
                attrs: Seq::empty(),
            }),
    {
        let g = GroupBuilder {
            name: name.to_owned(),
            datasets: Vec::new(),
            attrs: Vec::new(),
        };
        assert(g.datasets.deep_view() =~= Seq::<BuilderModel>::empty());
        assert(g.attrs.deep_view() =~= Seq::<(Seq<char>, AttrModel)>::empty());
        g
    }

    /// Add a dataset, and give the builder for it.
    pub fn create_dataset(&mut self, name: &str) -> (r: &mut DatasetBuilder)
        ensures
            r.deep_view() == named(name@),
            final(self).datasets@ == old(self).datasets@.push(*final(r)),
            final(self).name == old(self).name,
            final(self).attrs == old(self).attrs,
    {
        self.datasets.push(DatasetBuilder::new(name));
        let n: usize = self.datasets.len();
        &mut self.datasets[n - 1]
    }

    /// Add an attribute.
    pub fn set_attr(&mut self, name: &str, value: AttrValue)
        ensures
            final(self).deep_view() == (GroupModel {
                attrs: old(self).deep_view().attrs.push((name@, value.deep_view())),
                ..old(self).deep_view()
            }),
    {
        put_attr(&mut self.attrs, name, value);
    }

    /// Consume the builder, returning a FinishedGroup to add to FileWriter.
    pub fn finish(self) -> (g: FinishedGroup)
        ensures
            g.deep_view() == self.deep_view(),
    {
        FinishedGroup { name: self.name, datasets: self.datasets, attrs: self.attrs }
    }
}

} // verus!

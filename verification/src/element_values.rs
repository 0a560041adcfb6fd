//! Texts, enumeration values, references and records that are read from data in which the elements
//! stand one behind the other.

use vstd::prelude::*;
use vstd::utf8::*;
use crate::data_layout::DataLayoutModel;
use crate::data_read::{self, CompoundFieldModel, EnumValueModel, ObjectReference};
use crate::dataspace::DataspaceModel;
use crate::datatype::{
    CharacterSet, CompoundMemberModel, DatatypeModel, EnumMemberModel, ReferenceType,
    StringPadding,
};
use crate::error::ErrorModel;
use crate::filter_pipeline::PipelineModel;
use crate::places;
use crate::stored_elements::{self};

verus! {

// ---- Texts ----

/// Whether the bytes `b` hold a text with the given kind of padding: behind it stand a zero byte and
/// then anything, or zeros, or spaces. A text cannot end with what it is padded with.
pub open spec fn holds_text(b: Seq<u8>, text: Seq<char>, padding: StringPadding) -> bool {
    let t = encode_utf8(text);
    &&& t.len() <= b.len()
    &&& b.subrange(0, t.len() as int) == t
    &&& match padding {
        StringPadding::NullTerminate => {
            &&& crate::datatype::is_name(text)
            &&& t.len() < b.len() ==> b[t.len() as int] == 0
        },
        StringPadding::NullPad => {
            &&& t.len() > 0 ==> t.last() != 0
            &&& forall|i: int| t.len() <= i < b.len() ==> b[i] == 0
        },
        StringPadding::SpacePad => {
            &&& t.len() > 0 ==> t.last() != 32
            &&& forall|i: int| t.len() <= i < b.len() ==> b[i] == 32
        },
    }
}

proof fn lemma_trimmed(b: Seq<u8>, fill: u8, len: int, n: int)
    requires
        0 <= len <= n <= b.len(),
        len > 0 ==> b[len - 1] != fill,
        forall|i: int| len <= i < n ==> b[i] == fill,
    ensures
        data_read::trimmed(b, fill, n) == len,
    decreases n,
{
    if n > len {
        lemma_trimmed(b, fill, len, n - 1);
    }
}

proof fn lemma_text(b: Seq<u8>, text: Seq<char>, padding: StringPadding)
    requires
        holds_text(b, text, padding),
    ensures
        data_read::string_of(b, padding) == text,
{
    let t = encode_utf8(text);
    let n = t.len() as int;
    crate::text::lemma_text_round_trip(text);
    assert forall|i: int| 0 <= i < n implies b[i] == t[i] by {
        assert(b.subrange(0, n)[i] == t[i]);
    }
    match padding {
        StringPadding::NullTerminate => {
            crate::text::lemma_no_zero_byte(text);
            crate::text::lemma_zero_from_is(b, 0, n);
        },
        StringPadding::NullPad => {
            lemma_trimmed(b, 0, n, b.len() as int);
        },
        StringPadding::SpacePad => {
            lemma_trimmed(b, 32, n, b.len() as int);
        },
    }
}

/// Texts in fields of the same size are read back, whatever their padding.
#[verifier::rlimit(30)]
pub proof fn law_padded_texts_are_read_back(
    parts: Seq<Seq<u8>>,
    texts: Seq<Seq<char>>,
    size: u32,
    padding: StringPadding,
    charset: CharacterSet,
)
    requires
        size > 0,
        parts.len() == texts.len(),
        stored_elements::have_size(parts, size as int),
        forall|i: int|
            0 <= i < parts.len() ==> holds_text(#[trigger] parts[i], texts[i], padding),
    ensures
        data_read::strings_of(
            stored_elements::joined(parts),
            DatatypeModel::String { size, padding, charset },
        ) == Ok::<Seq<Seq<char>>, ErrorModel>(texts),
{
    let raw = stored_elements::joined(parts);
    stored_elements::law_elements_are_found(parts, size as int);
    let read = data_read::strings_of(raw, DatatypeModel::String { size, padding, charset })->Ok_0;
    assert forall|i: int| 0 <= i < texts.len() implies read[i] == texts[i] by {
        assert(data_read::element(raw, size as int, i) == parts[i]);
        lemma_text(parts[i], texts[i], padding);
    }
    assert(read =~= texts);
}

// ---- Compound elements ----

/// The bytes of one field in each of the elements, one behind the other.
pub open spec fn column(parts: Seq<Seq<u8>>, offset: int, width: int) -> Seq<u8> {
    stored_elements::joined(
        Seq::new(parts.len(), |i: int| parts[i].subrange(offset, offset + width)),
    )
}

proof fn lemma_column(parts: Seq<Seq<u8>>, size: int, offset: int, width: int, n: int)
    requires
        size > 0,
        stored_elements::have_size(parts, size),
        0 <= offset,
        0 <= width,
        offset + width <= size,
        0 <= n <= parts.len(),
    ensures
        data_read::field_bytes(stored_elements::joined(parts), size, offset, width, n) == column(
            parts.take(n),
            offset,
            width,
        ),
    decreases n,
{
    let raw = stored_elements::joined(parts);
    let cut = Seq::new(parts.take(n).len(), |i: int| parts.take(n)[i].subrange(offset, offset + width));
    if n > 0 {
        lemma_column(parts, size, offset, width, n - 1);
        stored_elements::law_elements_are_found(parts, size);
        stored_elements::lemma_joined_len(parts, size);
        let i = n - 1;
        let k = parts.len() as int;
        assert(0 <= i * size && (i + 1) * size == i * size + size && (i + 1) * size <= k * size)
            by (nonlinear_arith)
            requires
                0 <= i < k,
                size > 0,
        ;
        assert(data_read::element(raw, size, i) == parts[i]);
        assert(raw.subrange(i * size + offset, i * size + offset + width) =~= parts[i].subrange(
            offset,
            offset + width,
        ));
        let before = Seq::new(
            parts.take(n - 1).len(),
            |i: int| parts.take(n - 1)[i].subrange(offset, offset + width),
        );
        assert(cut.drop_last() =~= before);
        assert(cut.last() == parts[i].subrange(offset, offset + width));
    } else {
        assert(cut =~= Seq::<Seq<u8>>::empty());
    }
}

/// Whether the members lie within an element of the given size.
pub open spec fn members_fit(members: Seq<CompoundMemberModel>, size: u32) -> bool {
    forall|k: int|
        0 <= k < members.len() ==> (#[trigger] members[k]).byte_offset + members[k].datatype.size()
            <= size
}

/// The fields of compound elements are read as their columns: for each member its name, its type,
/// and the bytes at its offset in each of the elements.
#[verifier::rlimit(30)]
pub proof fn law_fields_are_columns(
    parts: Seq<Seq<u8>>,
    size: u32,
    members: Seq<CompoundMemberModel>,
)
    requires
        size > 0,
        stored_elements::have_size(parts, size as int),
        members_fit(members, size),
    ensures
        data_read::fields_of(
            stored_elements::joined(parts),
            DatatypeModel::Compound { size, members },
        ) == Ok::<Seq<CompoundFieldModel>, ErrorModel>(
            Seq::new(
                members.len(),
                |k: int|
                    CompoundFieldModel {
                        name: members[k].name,
                        datatype: members[k].datatype,
                        raw_data: column(
                            parts,
                            members[k].byte_offset as int,
                            members[k].datatype.size() as int,
                        ),
                    },
            ),
        ),
{
    let raw = stored_elements::joined(parts);
    let m = DatatypeModel::Compound { size, members };
    stored_elements::law_elements_are_found(parts, size as int);
    let n = parts.len() as int;
    let read = data_read::fields_of(raw, m)->Ok_0;
    let columns = Seq::new(
        members.len(),
        |k: int|
            CompoundFieldModel {
                name: members[k].name,
                datatype: members[k].datatype,
                raw_data: column(
                    parts,
                    members[k].byte_offset as int,
                    members[k].datatype.size() as int,
                ),
            },
    );
    assert forall|k: int| 0 <= k < members.len() implies read[k] == columns[k] by {
        let offset = members[k].byte_offset as int;
        let width = members[k].datatype.size() as int;
        lemma_column(parts, size as int, offset, width, n);
        assert(parts.take(n) =~= parts);
    }
    assert(read =~= columns);
}

proof fn lemma_field_found(
    fields: Seq<CompoundFieldModel>,
    name: Seq<char>,
    from: int,
    i: int,
)
    requires
        0 <= from <= i < fields.len(),
        fields[i].name == name,
        forall|k: int| from <= k < i ==> (#[trigger] fields[k]).name != name,
    ensures
        data_read::named_field(fields, name, from) == Some(fields[i]),
    decreases i - from,
{
    if from < i {
        assert(fields[from].name != name);
        lemma_field_found(fields, name, from + 1, i);
    }
}

proof fn lemma_field_missing(fields: Seq<CompoundFieldModel>, name: Seq<char>, from: int)
    requires
        0 <= from,
        forall|k: int| from <= k < fields.len() ==> (#[trigger] fields[k]).name != name,
    ensures
        data_read::named_field(fields, name, from) is None,
    decreases fields.len() - from,
{
    if from < fields.len() {
        assert(fields[from].name != name);
        lemma_field_missing(fields, name, from + 1);
    }
}

/// A field that is asked for by name is the first one with that name; if there is none, the error
/// names what was asked for.
#[verifier::rlimit(30)]
pub proof fn law_field_is_found_by_name(
    raw: Seq<u8>,
    m: DatatypeModel,
    fields: Seq<CompoundFieldModel>,
    name: Seq<char>,
)
    requires
        data_read::fields_of(raw, m) == Ok::<Seq<CompoundFieldModel>, ErrorModel>(fields),
    ensures
        forall|i: int|
            0 <= i < fields.len() && (#[trigger] fields[i]).name == name && (forall|k: int|
                0 <= k < i ==> (#[trigger] fields[k]).name != name) ==> data_read::field_named(
                raw,
                m,
                name,
            ) == Ok::<CompoundFieldModel, ErrorModel>(fields[i]),
        (forall|k: int| 0 <= k < fields.len() ==> (#[trigger] fields[k]).name != name)
            ==> data_read::field_named(raw, m, name) == Err::<CompoundFieldModel, ErrorModel>(
            ErrorModel::PathNotFound(name),
        ),
{
    assert forall|i: int|
        0 <= i < fields.len() && (#[trigger] fields[i]).name == name && (forall|k: int|
            0 <= k < i ==> (#[trigger] fields[k]).name != name) implies data_read::field_named(
        raw,
        m,
        name,
    ) == Ok::<CompoundFieldModel, ErrorModel>(fields[i]) by {
        lemma_field_found(fields, name, 0, i);
    }
    if forall|k: int| 0 <= k < fields.len() ==> (#[trigger] fields[k]).name != name {
        lemma_field_missing(fields, name, 0);
    }
}

// ---- Enumeration values ----

proof fn lemma_member(members: Seq<EnumMemberModel>, value: Seq<u8>, n: int, i: int)
    requires
        0 <= i < n <= members.len(),
        members[i].value == value,
        forall|k: int| i < k < n ==> (#[trigger] members[k]).value != value,
    ensures
        data_read::member_name(members, value, n) == Some(members[i].name),
    decreases n,
{
    if i < n - 1 {
        assert(members[n - 1].value != value);
        lemma_member(members, value, n - 1, i);
    }
}

/// Enumeration values that members stand for are read as these members: each with the name of its
/// member and its own bytes. Of members with the same value the last one counts.
#[verifier::rlimit(30)]
pub proof fn law_enumeration_values_are_read_back(
    size: u32,
    base_type: Box<DatatypeModel>,
    members: Seq<EnumMemberModel>,
    picks: Seq<int>,
)
    requires
        size > 0,
        forall|i: int| 0 <= i < members.len() ==> (#[trigger] members[i]).value.len() == size,
        forall|i: int| 0 <= i < picks.len() ==> 0 <= #[trigger] picks[i] < members.len(),
        forall|i: int, k: int|
            0 <= i < picks.len() && #[trigger] picks[i] < k < members.len() ==> (
            #[trigger] members[k]).value != members[picks[i]].value,
    ensures
        data_read::enum_values(
            stored_elements::joined(Seq::new(picks.len(), |i: int| members[picks[i]].value)),
            DatatypeModel::Enumeration { size, base_type, members },
        ) == Ok::<Seq<EnumValueModel>, ErrorModel>(
            Seq::new(
                picks.len(),
                |i: int|
                    EnumValueModel {
                        name: members[picks[i]].name,
                        raw_value: members[picks[i]].value,
                    },
            ),
        ),
        data_read::enum_names(
            stored_elements::joined(Seq::new(picks.len(), |i: int| members[picks[i]].value)),
            DatatypeModel::Enumeration { size, base_type, members },
        ) == Ok::<Seq<Seq<char>>, ErrorModel>(
            Seq::new(picks.len(), |i: int| members[picks[i]].name),
        ),
{
    let parts = Seq::new(picks.len(), |i: int| members[picks[i]].value);
    let raw = stored_elements::joined(parts);
    let m = DatatypeModel::Enumeration { size, base_type, members };
    assert forall|i: int| 0 <= i < parts.len() implies (#[trigger] parts[i]).len() == size by {
        assert(0 <= picks[i] < members.len());
        assert(members[picks[i]].value.len() == size);
    }
    stored_elements::law_elements_are_found(parts, size as int);
    let read = data_read::enum_values(raw, m)->Ok_0;
    let values = Seq::new(
        picks.len(),
        |i: int|
            EnumValueModel {
                name: members[picks[i]].name,
                raw_value: members[picks[i]].value,
            },
    );
    assert forall|i: int| 0 <= i < picks.len() implies read[i] == values[i] by {
        assert(0 <= picks[i] < members.len());
        assert(data_read::element(raw, size as int, i) == parts[i]);
        lemma_member(members, parts[i], members.len() as int, picks[i]);
    }
    assert(read =~= values);
    assert(data_read::enum_names(raw, m)->Ok_0 =~= Seq::new(
        picks.len(),
        |i: int| members[picks[i]].name,
    ));
}

/// The number that a hexadecimal digit stands for.
pub open spec fn digit_value(c: char) -> int {
    if '0' <= c <= '9' {
        c as int - '0' as int
    } else {
        c as int - 'a' as int + 10
    }
}

/// Whether a text spells the bytes, two hexadecimal digits each, the high one first.
pub open spec fn spells(h: Seq<char>, b: Seq<u8>) -> bool {
    &&& h.len() == 2 * b.len()
    &&& forall|i: int|
        0 <= i < b.len() ==> 16 * digit_value(h[2 * i]) + digit_value(h[2 * i + 1])
            == #[trigger] b[i]
    &&& forall|j: int|
        0 <= j < h.len() ==> '0' <= #[trigger] h[j] <= '9' || 'a' <= h[j] <= 'f'
}

proof fn lemma_spelled(b: Seq<u8>, n: int)
    requires
        0 <= n <= b.len(),
    ensures
        spells(crate::text::hex(b, n), b.take(n)),
    decreases n,
{
    let h = crate::text::hex(b, n);
    if n > 0 {
        lemma_spelled(b, n - 1);
        let before = crate::text::hex(b, n - 1);
        assert forall|i: int| 0 <= i < n implies 16 * digit_value(h[2 * i]) + digit_value(
            h[2 * i + 1],
        ) == #[trigger] b.take(n)[i] by {
            if i < n - 1 {
                assert(b.take(n - 1)[i] == b[i]);
                assert(h[2 * i] == before[2 * i] && h[2 * i + 1] == before[2 * i + 1]);
            } else {
                assert(h[2 * i] == crate::text::hex_digit((b[i] / 16) as nat));
                assert(h[2 * i + 1] == crate::text::hex_digit((b[i] % 16) as nat));
            }
        }
        assert forall|j: int| 0 <= j < h.len() implies '0' <= #[trigger] h[j] <= '9' || 'a' <= h[j]
            <= 'f' by {
            if j < 2 * (n - 1) {
                assert(h[j] == before[j]);
            }
        }
    }
}

/// A value that no member stands for is read under a name that spells its bytes.
#[verifier::rlimit(30)]
pub proof fn law_unknown_value_spells_its_bytes(members: Seq<EnumMemberModel>, value: Seq<u8>)
    requires
        forall|k: int| 0 <= k < members.len() ==> (#[trigger] members[k]).value != value,
    ensures
        exists|h: Seq<char>|
            spells(h, value) && data_read::value_name(members, value) == "UNKNOWN(0x"@ + h + ")"@,
{
    let n = value.len() as int;
    lemma_no_member(members, value, members.len() as int);
    lemma_spelled(value, n);
    assert(value.take(n) =~= value);
    let h = crate::text::hex(value, n);
    assert(spells(h, value));
}

proof fn lemma_no_member(members: Seq<EnumMemberModel>, value: Seq<u8>, n: int)
    requires
        0 <= n <= members.len(),
        forall|k: int| 0 <= k < members.len() ==> (#[trigger] members[k]).value != value,
    ensures
        data_read::member_name(members, value, n) is None,
    decreases n,
{
    if n > 0 {
        assert(members[n - 1].value != value);
        lemma_no_member(members, value, n - 1);
    }
}

// ---- References ----

/// The address that an object reference stands for: one that is undefined stands for the largest
/// number.
pub open spec fn reference_of(a: Option<u64>) -> ObjectReference {
    ObjectReference {
        address: match a {
            Some(v) => v,
            None => u64::MAX,
        },
    }
}

proof fn lemma_reference(b: Seq<u8>, a: Option<u64>, os: u8)
    requires
        crate::utils::is_width(os),
        places::is_address(a, os),
        places::stands(b, 0, places::address(a, os)),
    ensures
        data_read::reference_address(b, os as int) == reference_of(a).address,
{
    places::lemma_address(b, 0, a, os);
    let n = os as int;
    match a {
        Some(v) => {
            let f = places::field(v as int, n);
            crate::bytes::lemma_le_round_trip(v as nat, n as nat);
            vstd::arithmetic::div_mod::lemma_small_mod(
                v as nat,
                crate::bytes::pow256(n as nat),
            );
            if forall|k: int| 0 <= k < n ==> b[k] == 0xFF {
                assert(crate::utils::undefined_bytes(b, 0, os));
            }
        },
        None => {
            assert forall|k: int| 0 <= k < n implies b[k] == 0xFF by {
                places::lemma_byte(b, 0, places::address(a, os), k);
            }
        },
    }
}

/// Object references are read as the addresses that stand at the front of the elements.
#[verifier::rlimit(30)]
pub proof fn law_object_references_are_read_back(
    parts: Seq<Seq<u8>>,
    addresses: Seq<Option<u64>>,
    size: u32,
    os: u8,
)
    requires
        size >= os,
        crate::utils::is_width(os),
        parts.len() == addresses.len(),
        stored_elements::have_size(parts, size as int),
        forall|i: int|
            0 <= i < parts.len() ==> places::stands(
                #[trigger] parts[i],
                0,
                places::address(addresses[i], os),
            ) && places::is_address(addresses[i], os),
    ensures
        data_read::object_references(
            stored_elements::joined(parts),
            DatatypeModel::Reference { size, ref_type: ReferenceType::Object },
            os,
        ) == Ok::<Seq<ObjectReference>, ErrorModel>(
            Seq::new(parts.len(), |i: int| reference_of(addresses[i])),
        ),
{
    let raw = stored_elements::joined(parts);
    let m = DatatypeModel::Reference { size, ref_type: ReferenceType::Object };
    stored_elements::law_elements_are_found(parts, size as int);
    let read = data_read::object_references(raw, m, os)->Ok_0;
    let all = Seq::new(parts.len(), |i: int| reference_of(addresses[i]));
    assert forall|i: int| 0 <= i < parts.len() implies read[i] == all[i] by {
        assert(data_read::element(raw, size as int, i) == parts[i]);
        lemma_reference(parts[i], addresses[i], os);
    }
    assert(read =~= all);
}

/// Region references are read as the elements are.
#[verifier::rlimit(30)]
pub proof fn law_region_references_are_read_back(parts: Seq<Seq<u8>>, size: u32)
    requires
        size > 0,
        stored_elements::have_size(parts, size as int),
    ensures
        data_read::region_references(
            stored_elements::joined(parts),
            DatatypeModel::Reference { size, ref_type: ReferenceType::DatasetRegion },
        ) == Ok::<Seq<Seq<u8>>, ErrorModel>(parts),
{
    let raw = stored_elements::joined(parts);
    let m = DatatypeModel::Reference { size, ref_type: ReferenceType::DatasetRegion };
    stored_elements::law_elements_are_found(parts, size as int);
    assert(data_read::region_references(raw, m)->Ok_0 =~= parts);
}

// ---- Data sets ----

/// Data that stand in a compact layout, or at the address of a contiguous one, are read if they
/// have the size that the data space and the element size call for. Data of another size are
/// refused.
#[verifier::rlimit(30)]
pub proof fn law_unchunked_data_are_read(
    d: Seq<u8>,
    p: u64,
    data: Seq<u8>,
    space: DataspaceModel,
    size: u32,
    pipeline: Option<PipelineModel>,
    os: u8,
    ls: u8,
)
    requires
        places::stands(d, p as int, data),
        d.len() <= usize::MAX,
        p <= usize::MAX,
    ensures
        data.len() == data_read::expected_size(space, size) ==> data_read::raw_data(
            d,
            DataLayoutModel::Contiguous { address: Some(p), size: data.len() as u64 },
            space,
            size,
            pipeline,
            os,
            ls,
        ) == Ok::<Seq<u8>, ErrorModel>(data) && data_read::raw_data(
            d,
            DataLayoutModel::Compact { data },
            space,
            size,
            pipeline,
            os,
            ls,
        ) == Ok::<Seq<u8>, ErrorModel>(data),
        data.len() != data_read::expected_size(space, size) ==> data_read::raw_data(
            d,
            DataLayoutModel::Contiguous { address: Some(p), size: data.len() as u64 },
            space,
            size,
            pipeline,
            os,
            ls,
        ) is Err && data_read::raw_data(
            d,
            DataLayoutModel::Compact { data },
            space,
            size,
            pipeline,
            os,
            ls,
        ) is Err,
{
}

} // verus!

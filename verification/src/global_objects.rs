//! What is written in a collection of the global heap, and what refers to it, is read back.

use vstd::prelude::*;
use vstd::utf8::*;
use crate::bytes;
use crate::datatype_versions;
use crate::error::ErrorModel;
use crate::global_heap::{self, CollectionModel, HeapObjectModel};
use crate::places;
use crate::superblock;
use crate::vl_data;

verus! {

// ---- Collections ----

/// An object: its index, its reference count, four reserved bytes, its size, its data, filled up to
/// a multiple of eight bytes.
pub open spec fn object_bytes(o: HeapObjectModel, reserved: Seq<u8>, ls: u8) -> Seq<u8> {
    places::field(o.index as int, 2) + (places::field(o.reference_count as int, 2) + (reserved + (
    places::field(o.data.len() as int, ls as int) + (o.data + datatype_versions::filler(
        o.data.len() as int,
    )))))
}

/// The objects from the `k`-th on.
pub open spec fn objects_bytes(os: Seq<HeapObjectModel>, reserved: Seq<u8>, k: int, ls: u8) -> Seq<u8>
    decreases os.len() - k,
{
    if 0 <= k < os.len() {
        object_bytes(os[k], reserved, ls) + objects_bytes(os, reserved, k + 1, ls)
    } else {
        Seq::empty()
    }
}

/// What stands behind the objects of a collection: too little for another object, or free space,
/// which starts with the index 0.
pub open spec fn is_tail(tail: Seq<u8>) -> bool {
    tail.len() < 2 || tail[0] == 0 && tail[1] == 0
}

/// A collection: tag, version 1, three reserved bytes, its size, its objects, its tail.
pub open spec fn collection_bytes(
    os: Seq<HeapObjectModel>,
    front: Seq<u8>,
    reserved: Seq<u8>,
    size: u64,
    tail: Seq<u8>,
    ls: u8,
) -> Seq<u8> {
    seq![0x47u8, 0x43, 0x4F, 0x4C] + (seq![1u8] + (front + (places::field(size as int, ls as int) + (
    objects_bytes(os, reserved, 0, ls) + tail))))
}

/// Whether the fields of an object have room for it.
pub open spec fn is_object(o: HeapObjectModel, ls: u8) -> bool {
    &&& o.index != 0
    &&& o.data.len() < bytes::pow256(ls as nat)
}

proof fn lemma_object(d: Seq<u8>, p: int, o: HeapObjectModel, reserved: Seq<u8>, ls: u8)
    requires
        superblock::is_size(ls),
        reserved.len() == 4,
        is_object(o, ls),
        d.len() <= usize::MAX,
        places::stands(d, p, object_bytes(o, reserved, ls)),
    ensures
        bytes::u16_at(d, p) == o.index,
        bytes::u16_at(d, p + 2) == o.reference_count,
        crate::dataspace::length_at(d, p + 8, ls) == Ok::<u64, ErrorModel>(o.data.len() as u64),
        p + 8 + ls + o.data.len() <= d.len(),
        d.subrange(p + 8 + ls, p + 8 + ls + o.data.len()) == o.data,
        object_bytes(o, reserved, ls).len() == 8 + ls + crate::utils::padded8(
            o.data.len() as int,
        ),
{
    let a = places::field(o.index as int, 2);
    let b = places::field(o.reference_count as int, 2);
    let c = places::field(o.data.len() as int, ls as int);
    let fill = datatype_versions::filler(o.data.len() as int);
    places::lemma_field_len(o.index as int, 2);
    places::lemma_field_len(o.reference_count as int, 2);
    places::lemma_field_len(o.data.len() as int, ls as int);
    places::lemma_parts(d, p, a, b + (reserved + (c + (o.data + fill))));
    places::lemma_u16(d, p, o.index as int);
    places::lemma_parts(d, p + 2, b, reserved + (c + (o.data + fill)));
    places::lemma_u16(d, p + 2, o.reference_count as int);
    places::lemma_parts(d, p + 4, reserved, c + (o.data + fill));
    places::lemma_parts(d, p + 8, c, o.data + fill);
    places::lemma_width_bound(ls);
    places::lemma_word(d, p + 8, o.data.len() as int, ls);
    places::lemma_parts(d, p + 8 + ls, o.data, fill);
}

#[verifier::spinoff_prover]
#[verifier::rlimit(40)]
proof fn lemma_objects(
    d: Seq<u8>,
    p: int,
    end: int,
    os: Seq<HeapObjectModel>,
    reserved: Seq<u8>,
    k: int,
    tail: Seq<u8>,
    ls: u8,
)
    requires
        superblock::is_size(ls),
        reserved.len() == 4,
        0 <= k <= os.len(),
        forall|i: int| 0 <= i < os.len() ==> is_object(#[trigger] os[i], ls),
        is_tail(tail),
        d.len() <= usize::MAX,
        places::stands(d, p, objects_bytes(os, reserved, k, ls) + tail),
        end == p + objects_bytes(os, reserved, k, ls).len() + tail.len(),
    ensures
        global_heap::objects_at(d, p, end, ls, os.take(k)) == Ok::<
            Seq<HeapObjectModel>,
            ErrorModel,
        >(os),
    decreases os.len() - k,
{
    if k < os.len() {
        let first = object_bytes(os[k], reserved, ls);
        let rest = objects_bytes(os, reserved, k + 1, ls);
        assert((first + rest) + tail =~= first + (rest + tail));
        places::lemma_parts(d, p, first, rest + tail);
        lemma_object(d, p, os[k], reserved, ls);
        let o = HeapObjectModel {
            index: bytes::u16_at(d, p),
            reference_count: bytes::u16_at(d, p + 2),
            data: d.subrange(p + 8 + ls, p + 8 + ls + os[k].data.len()),
        };
        assert(o == os[k]);
        assert(os.take(k).push(os[k]) =~= os.take(k + 1));
        lemma_objects(d, p + first.len(), end, os, reserved, k + 1, tail, ls);
    } else {
        assert(os.take(k) =~= os);
        places::lemma_parts(d, p, objects_bytes(os, reserved, k, ls), tail);
        if tail.len() >= 2 {
            places::lemma_byte(d, p, tail, 0);
            places::lemma_byte(d, p, tail, 1);
        }
    }
}

/// A collection is read as the objects that were written in it, in their order: each with its index,
/// its reference count and its data.
#[verifier::rlimit(30)]
pub proof fn law_collection_is_read_back(
    d: Seq<u8>,
    p: int,
    os: Seq<HeapObjectModel>,
    front: Seq<u8>,
    reserved: Seq<u8>,
    size: u64,
    tail: Seq<u8>,
    ls: u8,
)
    requires
        superblock::is_size(ls),
        front.len() == 3,
        reserved.len() == 4,
        forall|i: int| 0 <= i < os.len() ==> is_object(#[trigger] os[i], ls),
        is_tail(tail),
        d.len() <= usize::MAX,
        size == collection_bytes(os, front, reserved, size, tail, ls).len(),
        size < bytes::pow256(ls as nat),
        places::stands(d, p, collection_bytes(os, front, reserved, size, tail, ls)),
    ensures
        global_heap::collection_at(d, p, ls) == Ok::<CollectionModel, ErrorModel>(
            CollectionModel { collection_size: size, objects: os },
        ),
{
    let tag = seq![0x47u8, 0x43, 0x4F, 0x4C];
    let n = places::field(size as int, ls as int);
    let all = objects_bytes(os, reserved, 0, ls);
    places::lemma_field_len(size as int, ls as int);
    places::lemma_parts(d, p, tag, seq![1u8] + (front + (n + (all + tail))));
    places::lemma_tag(d, p, tag);
    places::lemma_parts(d, p + 4, seq![1u8], front + (n + (all + tail)));
    places::lemma_byte(d, p + 4, seq![1u8], 0);
    places::lemma_parts(d, p + 5, front, n + (all + tail));
    places::lemma_parts(d, p + 8, n, all + tail);
    places::lemma_word(d, p + 8, size as int, ls);
    lemma_objects(d, p + 8 + ls, p + size, os, reserved, 0, tail, ls);
    assert(os.take(0) =~= Seq::<HeapObjectModel>::empty());
}

/// The object with an index is the first one that has it, and there is none if no object has it.
#[verifier::rlimit(30)]
pub proof fn law_object_is_found_by_index(os: Seq<HeapObjectModel>, index: u16)
    ensures
        forall|i: int|
            0 <= i < os.len() && (#[trigger] os[i]).index == index && (forall|k: int|
                0 <= k < i ==> (#[trigger] os[k]).index != index) ==> global_heap::object_with(
                os,
                index,
                0,
            ) == Some(os[i]),
        (forall|k: int| 0 <= k < os.len() ==> (#[trigger] os[k]).index != index)
            ==> global_heap::object_with(os, index, 0) is None,
{
    assert forall|i: int|
        0 <= i < os.len() && (#[trigger] os[i]).index == index && (forall|k: int|
            0 <= k < i ==> (#[trigger] os[k]).index != index) implies global_heap::object_with(
        os,
        index,
        0,
    ) == Some(os[i]) by {
        lemma_found(os, index, 0, i);
    }
    if forall|k: int| 0 <= k < os.len() ==> (#[trigger] os[k]).index != index {
        lemma_missing(os, index, 0);
    }
}

proof fn lemma_found(os: Seq<HeapObjectModel>, index: u16, from: int, i: int)
    requires
        0 <= from <= i < os.len(),
        os[i].index == index,
        forall|k: int| from <= k < i ==> (#[trigger] os[k]).index != index,
    ensures
        global_heap::object_with(os, index, from) == Some(os[i]),
    decreases i - from,
{
    if from < i {
        assert(os[from].index != index);
        lemma_found(os, index, from + 1, i);
    }
}

proof fn lemma_missing(os: Seq<HeapObjectModel>, index: u16, from: int)
    requires
        0 <= from,
        forall|k: int| from <= k < os.len() ==> (#[trigger] os[k]).index != index,
    ensures
        global_heap::object_with(os, index, from) is None,
    decreases os.len() - from,
{
    if from < os.len() {
        assert(os[from].index != index);
        lemma_missing(os, index, from + 1);
    }
}

// ---- References to objects ----

/// What refers to a text in the global heap: its length, the address of the collection, the index
/// of the object.
pub struct TextReference {
    pub length: u32,
    pub address: u64,
    pub index: u16,
}

pub open spec fn reference_bytes(r: TextReference, os: u8) -> Seq<u8> {
    places::field(r.length as int, 4) + (places::field(r.address as int, os as int)
        + places::field(r.index as int, 4))
}

/// The references from the `k`-th on.
pub open spec fn references_bytes(rs: Seq<TextReference>, k: int, os: u8) -> Seq<u8>
    decreases rs.len() - k,
{
    if 0 <= k < rs.len() {
        reference_bytes(rs[k], os) + references_bytes(rs, k + 1, os)
    } else {
        Seq::empty()
    }
}

/// Whether a reference leads to a text: that of as many bytes of its object as it says. One without
/// bytes, or without an address, leads to the empty text.
pub open spec fn leads_to_text(
    d: Seq<u8>,
    r: TextReference,
    text: Seq<char>,
    os: u8,
    ls: u8,
) -> bool {
    &&& r.address < bytes::pow256(os as nat)
    &&& r.address <= usize::MAX
    &&& if r.length == 0 || r.address == 0 || r.address + 1 == bytes::pow256(os as nat) {
        text.len() == 0
    } else {
        exists|c: CollectionModel, i: int|
            {
                &&& global_heap::collection_at(d, r.address as int, ls) == Ok::<
                    CollectionModel,
                    ErrorModel,
                >(c)
                &&& 0 <= i < c.objects.len()
                &&& (#[trigger] c.objects[i]).index == r.index
                &&& forall|k: int| 0 <= k < i ==> (#[trigger] c.objects[k]).index != r.index
                &&& r.length == encode_utf8(text).len() <= c.objects[i].data.len()
                &&& c.objects[i].data.subrange(0, r.length as int) == encode_utf8(text)
            }
    }
}

proof fn lemma_reference(
    d: Seq<u8>,
    raw: Seq<u8>,
    p: int,
    r: TextReference,
    text: Seq<char>,
    os: u8,
    ls: u8,
)
    requires
        superblock::is_size(os),
        places::stands(raw, p, reference_bytes(r, os)),
        leads_to_text(d, r, text, os, ls),
    ensures
        vl_data::vl_string(d, raw, p, os, ls) == Ok::<Seq<char>, ErrorModel>(text),
{
    let a = places::field(r.length as int, 4);
    let b = places::field(r.address as int, os as int);
    let c = places::field(r.index as int, 4);
    places::lemma_field_len(r.length as int, 4);
    places::lemma_field_len(r.address as int, os as int);
    places::lemma_field_len(r.index as int, 4);
    places::lemma_parts(raw, p, a, b + c);
    places::lemma_u32(raw, p, r.length as int);
    places::lemma_parts(raw, p + 4, b, c);
    places::lemma_word(raw, p + 4, r.address as int, os);
    places::lemma_u32(raw, p + 4 + os, r.index as int);
    bytes::lemma_pow256_values();
    if r.length == 0 || r.address == 0 || r.address + 1 == bytes::pow256(os as nat) {
        assert(text =~= Seq::<char>::empty());
    } else {
        let (col, i) = choose|c: CollectionModel, i: int|
            {
                &&& global_heap::collection_at(d, r.address as int, ls) == Ok::<
                    CollectionModel,
                    ErrorModel,
                >(c)
                &&& 0 <= i < c.objects.len()
                &&& (#[trigger] c.objects[i]).index == r.index
                &&& forall|k: int| 0 <= k < i ==> (#[trigger] c.objects[k]).index != r.index
                &&& r.length == encode_utf8(text).len() <= c.objects[i].data.len()
                &&& c.objects[i].data.subrange(0, r.length as int) == encode_utf8(text)
            };
        lemma_found(col.objects, r.index, 0, i);
        crate::text::lemma_text_round_trip(text);
    }
}

proof fn lemma_reference_at(raw: Seq<u8>, p: int, rs: Seq<TextReference>, k: int, i: int, os: u8)
    requires
        0 <= k <= i < rs.len(),
        places::stands(raw, p, references_bytes(rs, k, os)),
    ensures
        places::stands(raw, p + (i - k) * (8 + os), reference_bytes(rs[i], os)),
    decreases i - k,
{
    let size = 8 + os;
    let b = reference_bytes(rs[k], os);
    places::lemma_field_len(rs[k].length as int, 4);
    places::lemma_field_len(rs[k].address as int, os as int);
    places::lemma_field_len(rs[k].index as int, 4);
    places::lemma_parts(raw, p, b, references_bytes(rs, k + 1, os));
    if k < i {
        lemma_reference_at(raw, p + size, rs, k + 1, i, os);
        assert((i - k) * size == size + (i - (k + 1)) * size) by (nonlinear_arith);
    } else {
        assert((i - k) * size == 0) by (nonlinear_arith)
            requires
                i == k,
        ;
    }
}

proof fn lemma_texts(
    d: Seq<u8>,
    raw: Seq<u8>,
    rs: Seq<TextReference>,
    texts: Seq<Seq<char>>,
    n: int,
    os: u8,
    ls: u8,
)
    requires
        superblock::is_size(os),
        rs.len() == texts.len(),
        0 <= n <= rs.len(),
        places::stands(raw, 0, references_bytes(rs, 0, os)),
        forall|i: int| 0 <= i < rs.len() ==> leads_to_text(d, #[trigger] rs[i], texts[i], os, ls),
    ensures
        vl_data::vl_strings(d, raw, n, os, ls) == Ok::<Seq<Seq<char>>, ErrorModel>(texts.take(n)),
    decreases n,
{
    if n > 0 {
        lemma_texts(d, raw, rs, texts, n - 1, os, ls);
        lemma_reference_at(raw, 0, rs, 0, n - 1, os);
        assert(leads_to_text(d, rs[n - 1], texts[n - 1], os, ls));
        lemma_reference(d, raw, (n - 1) * (8 + os), rs[n - 1], texts[n - 1], os, ls);
        assert(texts.take(n - 1).push(texts[n - 1]) =~= texts.take(n));
    } else {
        assert(texts.take(0) =~= Seq::<Seq<char>>::empty());
    }
}

/// Texts of variable length are read as those that the references lead to, in their order.
#[verifier::rlimit(30)]
pub proof fn law_texts_of_variable_length_are_read(
    d: Seq<u8>,
    rs: Seq<TextReference>,
    texts: Seq<Seq<char>>,
    rest: Seq<u8>,
    os: u8,
    ls: u8,
)
    requires
        superblock::is_size(os),
        rs.len() == texts.len(),
        forall|i: int| 0 <= i < rs.len() ==> leads_to_text(d, #[trigger] rs[i], texts[i], os, ls),
    ensures
        vl_data::vl_strings(d, references_bytes(rs, 0, os) + rest, rs.len() as int, os, ls) == Ok::<
            Seq<Seq<char>>,
            ErrorModel,
        >(texts),
{
    let raw = references_bytes(rs, 0, os) + rest;
    places::lemma_whole(raw);
    places::lemma_parts(raw, 0, references_bytes(rs, 0, os), rest);
    lemma_texts(d, raw, rs, texts, rs.len() as int, os, ls);
    assert(texts.take(rs.len() as int) =~= texts);
}

} // verus!

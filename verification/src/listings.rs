//! Which links and attributes the messages of an object, and its heap, list.

use vstd::prelude::*;
use crate::attribute::{self, AttributeModel};
use crate::error::ErrorModel;
use crate::fractal_heap::FractalHeapHeader;
use crate::group_v1::{self, GroupEntryModel};
use crate::group_v2;
use crate::link_info::LinkInfoMessage;
use crate::link_message::{self, LinkModel, LinkTargetModel};
use crate::message_type::MessageType;
use crate::object_header::HeaderMessageModel;

verus! {

/// What is there, in its order.
pub open spec fn present<A>(items: Seq<Option<A>>) -> Seq<A>
    decreases items.len(),
{
    if items.len() == 0 {
        Seq::empty()
    } else {
        match items.last() {
            Some(a) => present(items.drop_last()).push(a),
            None => present(items.drop_last()),
        }
    }
}

// ---- Messages ----

/// The message of a given type that counts is the first one.
#[verifier::rlimit(30)]
pub proof fn law_first_message_counts(ms: Seq<HeaderMessageModel>, t: MessageType)
    ensures
        forall|i: int|
            0 <= i < ms.len() && (#[trigger] ms[i]).msg_type == t && (forall|k: int|
                0 <= k < i ==> (#[trigger] ms[k]).msg_type != t) ==> group_v1::message_of(ms, t, 0)
                == Some(ms[i].data),
        (forall|k: int| 0 <= k < ms.len() ==> (#[trigger] ms[k]).msg_type != t)
            ==> group_v1::message_of(ms, t, 0) is None,
{
    assert forall|i: int|
        0 <= i < ms.len() && (#[trigger] ms[i]).msg_type == t && (forall|k: int|
            0 <= k < i ==> (#[trigger] ms[k]).msg_type != t) implies group_v1::message_of(
        ms,
        t,
        0,
    ) == Some(ms[i].data) by {
        lemma_message_found(ms, t, 0, i);
    }
    if forall|k: int| 0 <= k < ms.len() ==> (#[trigger] ms[k]).msg_type != t {
        lemma_message_missing(ms, t, 0);
    }
}

proof fn lemma_message_found(ms: Seq<HeaderMessageModel>, t: MessageType, from: int, i: int)
    requires
        0 <= from <= i < ms.len(),
        ms[i].msg_type == t,
        forall|k: int| from <= k < i ==> (#[trigger] ms[k]).msg_type != t,
    ensures
        group_v1::message_of(ms, t, from) == Some(ms[i].data),
    decreases i - from,
{
    if from < i {
        assert(ms[from].msg_type != t);
        lemma_message_found(ms, t, from + 1, i);
    }
}

proof fn lemma_message_missing(ms: Seq<HeaderMessageModel>, t: MessageType, from: int)
    requires
        0 <= from,
        forall|k: int| from <= k < ms.len() ==> (#[trigger] ms[k]).msg_type != t,
    ensures
        group_v1::message_of(ms, t, from) is None,
    decreases ms.len() - from,
{
    if from < ms.len() {
        assert(ms[from].msg_type != t);
        lemma_message_missing(ms, t, from + 1);
    }
}

// ---- Links ----

/// The child that a link stands for: only a hard link has one.
pub open spec fn child_of(link: Option<LinkModel>) -> Option<GroupEntryModel> {
    match link {
        Some(l) => match l.link_target {
            LinkTargetModel::Hard { object_header_address } => Some(
                GroupEntryModel { name: l.name, object_header_address, cache_type: 0 },
            ),
            _ => None,
        },
        None => None,
    }
}

/// The children that links stand for.
pub open spec fn children_of(links: Seq<Option<LinkModel>>) -> Seq<Option<GroupEntryModel>> {
    Seq::new(links.len(), |i: int| child_of(links[i]))
}

/// Whether data hold a link.
pub open spec fn holds_link(data: Seq<u8>, l: LinkModel, os: u8) -> bool {
    &&& l.link_target.representable(os)
    &&& vstd::utf8::encode_utf8(l.name).len() <= u32::MAX
    &&& exists|rest: Seq<u8>| data == #[trigger] (l.bytes(os) + rest)
}

proof fn lemma_link(data: Seq<u8>, l: LinkModel, os: u8)
    requires
        holds_link(data, l, os),
    ensures
        link_message::link_of(data, os) == Ok::<LinkModel, ErrorModel>(l),
{
    let rest = choose|rest: Seq<u8>| data == #[trigger] (l.bytes(os) + rest);
    link_message::law_link_round_trip(l, os, rest);
}

/// Whether a message is a link message with the given link, or none if there is no link.
pub open spec fn is_link_message(m: HeaderMessageModel, link: Option<LinkModel>, os: u8) -> bool {
    match link {
        Some(l) => m.msg_type == MessageType::Link && holds_link(m.data, l, os),
        None => m.msg_type != MessageType::Link,
    }
}

proof fn lemma_compact(
    ms: Seq<HeaderMessageModel>,
    links: Seq<Option<LinkModel>>,
    n: int,
    os: u8,
)
    requires
        ms.len() == links.len(),
        0 <= n <= ms.len(),
        forall|i: int| 0 <= i < ms.len() ==> is_link_message(#[trigger] ms[i], links[i], os),
    ensures
        group_v2::compact_entries(ms, n, os) == Ok::<Seq<GroupEntryModel>, ErrorModel>(
            present(children_of(links).take(n)),
        ),
    decreases n,
{
    let all = children_of(links);
    if n > 0 {
        lemma_compact(ms, links, n - 1, os);
        assert(is_link_message(ms[n - 1], links[n - 1], os));
        if let Some(l) = links[n - 1] {
            lemma_link(ms[n - 1].data, l, os);
        }
        assert(all.take(n).drop_last() =~= all.take(n - 1));
        assert(all.take(n).last() == all[n - 1]);
    }
}

/// A group that keeps its links in its header has the children that its hard links name, in their
/// order.
#[verifier::rlimit(30)]
pub proof fn law_compact_group_is_read_back(
    ms: Seq<HeaderMessageModel>,
    links: Seq<Option<LinkModel>>,
    os: u8,
)
    requires
        ms.len() == links.len(),
        forall|i: int| 0 <= i < ms.len() ==> is_link_message(#[trigger] ms[i], links[i], os),
    ensures
        group_v2::compact_entries(ms, ms.len() as int, os) == Ok::<
            Seq<GroupEntryModel>,
            ErrorModel,
        >(present(children_of(links))),
{
    lemma_compact(ms, links, ms.len() as int, os);
    assert(children_of(links).take(ms.len() as int) =~= children_of(links));
}

/// Whether a record of an index leads to an object with the given link: its key, of four bytes in
/// an index by name and of eight in one by order, and the ID of the object. What is too short for
/// an ID leads nowhere.
pub open spec fn leads_to_link(
    d: Seq<u8>,
    heap: FractalHeapHeader,
    kind: u8,
    record: Seq<u8>,
    link: Option<LinkModel>,
    os: u8,
) -> bool {
    let key: int = if kind == 5 {
        4
    } else {
        8
    };
    let n = heap.heap_id_length as int;
    match link {
        Some(l) => {
            &&& record.len() >= key + n
            &&& heap.object(d, record.subrange(key, key + n), os) matches Ok(data) && holds_link(
                data,
                l,
                os,
            )
        },
        None => record.len() < key + n,
    }
}

proof fn lemma_dense(
    d: Seq<u8>,
    heap: FractalHeapHeader,
    kind: u8,
    records: Seq<Seq<u8>>,
    links: Seq<Option<LinkModel>>,
    n: int,
    os: u8,
)
    requires
        records.len() == links.len(),
        0 <= n <= records.len(),
        forall|i: int|
            0 <= i < records.len() ==> leads_to_link(
                d,
                heap,
                kind,
                #[trigger] records[i],
                links[i],
                os,
            ),
    ensures
        group_v2::dense_entries(d, heap, kind, records, n, os) == Ok::<
            Seq<GroupEntryModel>,
            ErrorModel,
        >(present(children_of(links).take(n))),
    decreases n,
{
    let all = children_of(links);
    if n > 0 {
        lemma_dense(d, heap, kind, records, links, n - 1, os);
        let record = records[n - 1];
        assert(leads_to_link(d, heap, kind, record, links[n - 1], os));
        if let Some(l) = links[n - 1] {
            let p = group_v2::id_position(kind);
            let id = record.subrange(p, p + heap.heap_id_length);
            lemma_link(heap.object(d, id, os)->Ok_0, l, os);
        }
        assert(all.take(n).drop_last() =~= all.take(n - 1));
        assert(all.take(n).last() == all[n - 1]);
    }
}

/// A group that keeps its links in a heap has the children that the hard links name to which the
/// records of its index lead, in their order.
#[verifier::rlimit(30)]
pub proof fn law_dense_group_is_read_back(
    d: Seq<u8>,
    heap: FractalHeapHeader,
    kind: u8,
    records: Seq<Seq<u8>>,
    links: Seq<Option<LinkModel>>,
    os: u8,
)
    requires
        records.len() == links.len(),
        forall|i: int|
            0 <= i < records.len() ==> leads_to_link(
                d,
                heap,
                kind,
                #[trigger] records[i],
                links[i],
                os,
            ),
    ensures
        group_v2::dense_entries(d, heap, kind, records, records.len() as int, os) == Ok::<
            Seq<GroupEntryModel>,
            ErrorModel,
        >(present(children_of(links))),
{
    lemma_dense(d, heap, kind, records, links, records.len() as int, os);
    assert(children_of(links).take(records.len() as int) =~= children_of(links));
}

/// Whether there is no message of the given type.
pub open spec fn lacks(ms: Seq<HeaderMessageModel>, t: MessageType) -> bool {
    forall|k: int| 0 <= k < ms.len() ==> (#[trigger] ms[k]).msg_type != t
}

/// Whether the first message of the given type has the given data.
pub open spec fn first_is(ms: Seq<HeaderMessageModel>, t: MessageType, data: Seq<u8>) -> bool {
    exists|i: int|
        0 <= i < ms.len() && (#[trigger] ms[i]).msg_type == t && ms[i].data == data && forall|k: int|
            0 <= k < i ==> (#[trigger] ms[k]).msg_type != t
}

/// What decides where the children of a group are: a symbol table message before all else, then
/// the heap that a link info message names, and the link messages of the header where there is no
/// such heap. An object with none of these messages is no group.
#[verifier::rlimit(30)]
pub proof fn law_kind_of_group(
    d: Seq<u8>,
    ms: Seq<HeaderMessageModel>,
    table: crate::symbol_table::SymbolTableMessage,
    info: LinkInfoMessage,
    ordered: bool,
    high: u8,
    rest: Seq<u8>,
    os: u8,
    ls: u8,
)
    requires
        crate::info_messages::is_defined_address(info.fractal_heap_address, os),
        crate::info_messages::is_defined_address(info.btree_name_index_address, os),
        crate::info_messages::is_defined_address(info.btree_creation_order_address, os),
        !ordered ==> info.btree_creation_order_address is None,
        table.btree_address < crate::bytes::pow256(os as nat),
        table.local_heap_address < crate::bytes::pow256(os as nat),
    ensures
        first_is(
            ms,
            MessageType::SymbolTable,
            crate::group_tree::table_bytes(table, os) + rest,
        ) ==> group_v2::any_entries(d, ms, os, ls) == group_v1::group_entries(d, table, os, ls),
        lacks(ms, MessageType::SymbolTable) && first_is(
            ms,
            MessageType::LinkInfo,
            crate::info_messages::link_info_bytes(info, ordered, high, os) + rest,
        ) ==> group_v2::any_entries(d, ms, os, ls) == match info.fractal_heap_address {
            Some(a) => group_v2::dense_group(d, a, info.btree_name_index_address, os, ls),
            None => group_v2::compact_entries(ms, ms.len() as int, os),
        },
        lacks(ms, MessageType::SymbolTable) && lacks(ms, MessageType::LinkInfo) && !lacks(
            ms,
            MessageType::Link,
        ) ==> group_v2::any_entries(d, ms, os, ls) == group_v2::compact_entries(
            ms,
            ms.len() as int,
            os,
        ),
        lacks(ms, MessageType::SymbolTable) && lacks(ms, MessageType::LinkInfo) && lacks(
            ms,
            MessageType::Link,
        ) ==> group_v2::any_entries(d, ms, os, ls) is Err,
{
    law_first_message_counts(ms, MessageType::SymbolTable);
    law_first_message_counts(ms, MessageType::LinkInfo);
    law_first_message_counts(ms, MessageType::Link);
    crate::group_tree::law_symbol_table_message_is_read_back(table, rest, os);
    crate::info_messages::law_link_info_is_read_back(info, ordered, high, rest, os);
    let a = crate::group_tree::table_bytes(table, os) + rest;
    if first_is(ms, MessageType::SymbolTable, a) {
        assert(group_v1::message_of(ms, MessageType::SymbolTable, 0) == Some(a));
    }
    let b = crate::info_messages::link_info_bytes(info, ordered, high, os) + rest;
    if first_is(ms, MessageType::LinkInfo, b) {
        assert(group_v1::message_of(ms, MessageType::LinkInfo, 0) == Some(b));
    }
    if !lacks(ms, MessageType::Link) {
        lemma_some_message(ms, MessageType::Link, 0);
    }
}

proof fn lemma_some_message(ms: Seq<HeaderMessageModel>, t: MessageType, from: int)
    requires
        0 <= from,
        exists|k: int| from <= k < ms.len() && (#[trigger] ms[k]).msg_type == t,
    ensures
        group_v1::message_of(ms, t, from) is Some,
    decreases ms.len() - from,
{
    let k = choose|k: int| from <= k < ms.len() && (#[trigger] ms[k]).msg_type == t;
    if ms[from].msg_type != t {
        assert(from + 1 <= k);
        lemma_some_message(ms, t, from + 1);
    }
}

// ---- Attributes ----

/// Whether a message is an attribute message with the given attribute, or none if there is no
/// attribute.
pub open spec fn is_attribute_message(
    m: HeaderMessageModel,
    a: Option<AttributeModel>,
    ls: u8,
) -> bool {
    match a {
        Some(v) => m.msg_type == MessageType::Attribute && attribute::attribute_of(m.data, ls)
            == Ok::<AttributeModel, ErrorModel>(v),
        None => m.msg_type != MessageType::Attribute,
    }
}

proof fn lemma_inline(
    ms: Seq<HeaderMessageModel>,
    attributes: Seq<Option<AttributeModel>>,
    n: int,
    ls: u8,
)
    requires
        ms.len() == attributes.len(),
        0 <= n <= ms.len(),
        forall|i: int|
            0 <= i < ms.len() ==> is_attribute_message(#[trigger] ms[i], attributes[i], ls),
    ensures
        attribute::inline_attributes(ms, n, ls) == Ok::<Seq<AttributeModel>, ErrorModel>(
            present(attributes.take(n)),
        ),
    decreases n,
{
    if n > 0 {
        lemma_inline(ms, attributes, n - 1, ls);
        assert(is_attribute_message(ms[n - 1], attributes[n - 1], ls));
        assert(attributes.take(n).drop_last() =~= attributes.take(n - 1));
        assert(attributes.take(n).last() == attributes[n - 1]);
    }
}

/// The attributes in a header are those of all its attribute messages, in their order.
#[verifier::rlimit(30)]
pub proof fn law_inline_attributes_are_listed(
    ms: Seq<HeaderMessageModel>,
    attributes: Seq<Option<AttributeModel>>,
    ls: u8,
)
    requires
        ms.len() == attributes.len(),
        forall|i: int|
            0 <= i < ms.len() ==> is_attribute_message(#[trigger] ms[i], attributes[i], ls),
    ensures
        attribute::inline_attributes(ms, ms.len() as int, ls) == Ok::<
            Seq<AttributeModel>,
            ErrorModel,
        >(present(attributes)),
{
    lemma_inline(ms, attributes, ms.len() as int, ls);
    assert(attributes.take(ms.len() as int) =~= attributes);
}

/// Whether a message is an attribute message with the given attribute, which it holds itself or
/// refers to, or none if there is no attribute.
pub open spec fn is_any_attribute_message(
    d: Seq<u8>,
    m: HeaderMessageModel,
    a: Option<AttributeModel>,
    os: u8,
    ls: u8,
) -> bool {
    match a {
        Some(v) => m.msg_type == MessageType::Attribute && attribute::message_attribute(
            d,
            m,
            os,
            ls,
        ) == Ok::<AttributeModel, ErrorModel>(v),
        None => m.msg_type != MessageType::Attribute,
    }
}

proof fn lemma_compact_attributes(
    d: Seq<u8>,
    ms: Seq<HeaderMessageModel>,
    attributes: Seq<Option<AttributeModel>>,
    n: int,
    os: u8,
    ls: u8,
)
    requires
        ms.len() == attributes.len(),
        0 <= n <= ms.len(),
        forall|i: int|
            0 <= i < ms.len() ==> is_any_attribute_message(
                d,
                #[trigger] ms[i],
                attributes[i],
                os,
                ls,
            ),
    ensures
        attribute::compact_attributes(d, ms, n, os, ls) == Ok::<Seq<AttributeModel>, ErrorModel>(
            present(attributes.take(n)),
        ),
    decreases n,
{
    if n > 0 {
        lemma_compact_attributes(d, ms, attributes, n - 1, os, ls);
        assert(is_any_attribute_message(d, ms[n - 1], attributes[n - 1], os, ls));
        assert(attributes.take(n).drop_last() =~= attributes.take(n - 1));
        assert(attributes.take(n).last() == attributes[n - 1]);
    }
}

/// Whether a record of an index leads to an object with the given attribute. What is too short for
/// an ID leads nowhere.
pub open spec fn leads_to_attribute(
    d: Seq<u8>,
    heap: FractalHeapHeader,
    record: Seq<u8>,
    a: Option<AttributeModel>,
    os: u8,
    ls: u8,
) -> bool {
    let n = heap.heap_id_length as int;
    match a {
        Some(v) => {
            &&& record.len() >= n
            &&& heap.object(d, record.subrange(0, n), os) matches Ok(data)
                && attribute::attribute_of(data, ls) == Ok::<AttributeModel, ErrorModel>(v)
        },
        None => record.len() < n,
    }
}

proof fn lemma_dense_attributes(
    d: Seq<u8>,
    heap: FractalHeapHeader,
    records: Seq<Seq<u8>>,
    attributes: Seq<Option<AttributeModel>>,
    n: int,
    done: Seq<AttributeModel>,
    os: u8,
    ls: u8,
)
    requires
        records.len() == attributes.len(),
        0 <= n <= records.len(),
        forall|i: int|
            0 <= i < records.len() ==> leads_to_attribute(
                d,
                heap,
                #[trigger] records[i],
                attributes[i],
                os,
                ls,
            ),
    ensures
        attribute::dense_attributes(d, heap, records, n, os, ls, done) == Ok::<
            Seq<AttributeModel>,
            ErrorModel,
        >(done + present(attributes.take(n))),
    decreases n,
{
    if n > 0 {
        lemma_dense_attributes(d, heap, records, attributes, n - 1, done, os, ls);
        assert(leads_to_attribute(d, heap, records[n - 1], attributes[n - 1], os, ls));
        assert(attributes.take(n).drop_last() =~= attributes.take(n - 1));
        assert(attributes.take(n).last() == attributes[n - 1]);
        let before = present(attributes.take(n - 1));
        if let Some(v) = attributes[n - 1] {
            assert((done + before).push(v) =~= done + before.push(v));
        }
    } else {
        assert(done + present(attributes.take(n)) =~= done);
    }
}

/// The attributes of an object are those of all its attribute messages, in their order, and behind
/// them, where an attribute info message names a heap, those to which the records of the index
/// lead.
#[verifier::rlimit(30)]
pub proof fn law_attributes_are_listed(
    d: Seq<u8>,
    ms: Seq<HeaderMessageModel>,
    attributes: Seq<Option<AttributeModel>>,
    heap: FractalHeapHeader,
    records: Seq<Seq<u8>>,
    more: Seq<Option<AttributeModel>>,
    os: u8,
    ls: u8,
)
    requires
        ms.len() == attributes.len(),
        forall|i: int|
            0 <= i < ms.len() ==> is_any_attribute_message(
                d,
                #[trigger] ms[i],
                attributes[i],
                os,
                ls,
            ),
        records.len() == more.len(),
        forall|i: int|
            0 <= i < records.len() ==> leads_to_attribute(
                d,
                heap,
                #[trigger] records[i],
                more[i],
                os,
                ls,
            ),
    ensures
        lacks(ms, MessageType::AttributeInfo) ==> attribute::all_attributes(d, ms, os, ls) == Ok::<
            Seq<AttributeModel>,
            ErrorModel,
        >(present(attributes)),
        forall|info: crate::attribute_info::AttributeInfoMessage, h: crate::btree_v2::BTreeV2Header|
            #![trigger attribute::attribute_info_in(ms, os), crate::btree_v2::all_records(d, h, os),
                info.fractal_heap_address]
            attribute::attribute_info_in(ms, os) == Ok::<
                Option<crate::attribute_info::AttributeInfoMessage>,
                ErrorModel,
            >(Some(info)) && info.fractal_heap_address is Some && info.btree_name_index_address is Some
                && crate::fractal_heap::header_at(
                d,
                (info.fractal_heap_address->0 as usize) as int,
                os,
                ls,
            ) == Ok::<FractalHeapHeader, ErrorModel>(heap) && crate::btree_v2::header_at(
                d,
                (info.btree_name_index_address->0 as usize) as int,
                os,
                ls,
            ) == Ok::<crate::btree_v2::BTreeV2Header, ErrorModel>(h) && crate::btree_v2::all_records(
                d,
                h,
                os,
            ) == Ok::<Seq<Seq<u8>>, ErrorModel>(records) ==> attribute::all_attributes(
                d,
                ms,
                os,
                ls,
            ) == Ok::<Seq<AttributeModel>, ErrorModel>(present(attributes) + present(more)),
{
    let n = ms.len() as int;
    lemma_compact_attributes(d, ms, attributes, n, os, ls);
    assert(attributes.take(n) =~= attributes);
    law_first_message_counts(ms, MessageType::AttributeInfo);
    let k = records.len() as int;
    lemma_dense_attributes(d, heap, records, more, k, present(attributes), os, ls);
    assert(more.take(k) =~= more);
}

/// The attribute that is found under a name is the first one with that name, and there is none if
/// no attribute has it.
#[verifier::rlimit(30)]
pub proof fn law_attribute_is_found_by_name(attributes: Seq<AttributeModel>, name: Seq<char>)
    ensures
        forall|i: int|
            0 <= i < attributes.len() && (#[trigger] attributes[i]).name == name && (forall|k: int|
                0 <= k < i ==> (#[trigger] attributes[k]).name != name)
                ==> attribute::attribute_named(attributes, name, 0) == Some(attributes[i]),
        (forall|k: int| 0 <= k < attributes.len() ==> (#[trigger] attributes[k]).name != name)
            ==> attribute::attribute_named(attributes, name, 0) is None,
{
    assert forall|i: int|
        0 <= i < attributes.len() && (#[trigger] attributes[i]).name == name && (forall|k: int|
            0 <= k < i ==> (#[trigger] attributes[k]).name != name) implies attribute::attribute_named(
        attributes,
        name,
        0,
    ) == Some(attributes[i]) by {
        lemma_attribute_found(attributes, name, 0, i);
    }
    if forall|k: int| 0 <= k < attributes.len() ==> (#[trigger] attributes[k]).name != name {
        lemma_attribute_missing(attributes, name, 0);
    }
}

proof fn lemma_attribute_found(
    attributes: Seq<AttributeModel>,
    name: Seq<char>,
    from: int,
    i: int,
)
    requires
        0 <= from <= i < attributes.len(),
        attributes[i].name == name,
        forall|k: int| from <= k < i ==> (#[trigger] attributes[k]).name != name,
    ensures
        attribute::attribute_named(attributes, name, from) == Some(attributes[i]),
    decreases i - from,
{
    if from < i {
        assert(attributes[from].name != name);
        lemma_attribute_found(attributes, name, from + 1, i);
    }
}

proof fn lemma_attribute_missing(attributes: Seq<AttributeModel>, name: Seq<char>, from: int)
    requires
        0 <= from,
        forall|k: int| from <= k < attributes.len() ==> (#[trigger] attributes[k]).name != name,
    ensures
        attribute::attribute_named(attributes, name, from) is None,
    decreases attributes.len() - from,
{
    if from < attributes.len() {
        assert(attributes[from].name != name);
        lemma_attribute_missing(attributes, name, from + 1);
    }
}

} // verus!

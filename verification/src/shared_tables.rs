//! What is written in references to shared messages, and in their tables, is read back.

use vstd::prelude::*;
use vstd::arithmetic::power2::pow2;
use crate::bytes;
use crate::error::ErrorModel;
use crate::fractal_heap::FractalHeapHeader;
use crate::message_type::MessageType;
use crate::object_header::HeaderMessageModel;
use crate::places;
use crate::shared_message::{
    self, SharedRefModel, SohmEntryModel, SohmIndex, SohmTableMessage, Wanted,
};

verus! {

// ---- References ----

/// A reference of version 1 or 2: version, type, six reserved bytes, the address of an object header.
pub open spec fn old_reference_bytes(
    version: u8,
    kind: u8,
    reserved: Seq<u8>,
    address: u64,
    os: u8,
) -> Seq<u8> {
    seq![version, kind] + (reserved + places::field(address as int, os as int))
}

/// A reference of version 3: version, type, the address of an object header.
pub open spec fn reference_bytes(kind: u8, address: u64, os: u8) -> Seq<u8> {
    seq![3u8, kind] + places::field(address as int, os as int)
}

/// A reference of version 3 into a heap: version, type 2, the ID of an object.
pub open spec fn heap_reference_bytes(id: Seq<u8>) -> Seq<u8> {
    seq![3u8, 2] + id
}

/// References of all versions are read as what was written in them, whatever stands behind them.
#[verifier::rlimit(30)]
pub proof fn law_references_are_read_back(
    version: u8,
    kind: u8,
    reserved: Seq<u8>,
    address: u64,
    id: Seq<u8>,
    rest: Seq<u8>,
    os: u8,
)
    requires
        crate::utils::is_width(os),
        version == 1 || version == 2,
        reserved.len() == 6,
        address < bytes::pow256(os as nat),
        id.len() == 8,
    ensures
        shared_message::shared_ref_of(
            old_reference_bytes(version, kind, reserved, address, os) + rest,
            os,
        ) == Ok::<SharedRefModel, ErrorModel>(
            SharedRefModel {
                ref_type: kind,
                version,
                object_header_address: Some(address),
                heap_id: None,
            },
        ),
        kind == 1 || kind == 3 ==> shared_message::shared_ref_of(
            reference_bytes(kind, address, os) + rest,
            os,
        ) == Ok::<SharedRefModel, ErrorModel>(
            SharedRefModel {
                ref_type: kind,
                version: 3,
                object_header_address: Some(address),
                heap_id: None,
            },
        ),
        shared_message::shared_ref_of(heap_reference_bytes(id) + rest, os) == Ok::<
            SharedRefModel,
            ErrorModel,
        >(
            SharedRefModel {
                ref_type: 2,
                version: 3,
                object_header_address: None,
                heap_id: Some(id),
            },
        ),
{
    let a = places::field(address as int, os as int);
    places::lemma_field_len(address as int, os as int);
    {
        let front = seq![version, kind];
        let d = old_reference_bytes(version, kind, reserved, address, os) + rest;
        places::lemma_whole(d);
        places::lemma_parts(d, 0, front + (reserved + a), rest);
        places::lemma_parts(d, 0, front, reserved + a);
        places::lemma_byte(d, 0, front, 0);
        places::lemma_byte(d, 0, front, 1);
        places::lemma_parts(d, 2, reserved, a);
        places::lemma_word(d, 8, address as int, os);
    }
    if kind == 1 || kind == 3 {
        let front = seq![3u8, kind];
        let d = reference_bytes(kind, address, os) + rest;
        places::lemma_whole(d);
        places::lemma_parts(d, 0, front + a, rest);
        places::lemma_parts(d, 0, front, a);
        places::lemma_byte(d, 0, front, 0);
        places::lemma_byte(d, 0, front, 1);
        places::lemma_word(d, 2, address as int, os);
    }
    let front = seq![3u8, 2];
    let d = heap_reference_bytes(id) + rest;
    places::lemma_whole(d);
    places::lemma_parts(d, 0, front + id, rest);
    places::lemma_parts(d, 0, front, id);
    places::lemma_byte(d, 0, front, 0);
    places::lemma_byte(d, 0, front, 1);
    assert(d.subrange(2, 10) == id);
}

proof fn lemma_wanted(ms: Seq<HeaderMessageModel>, w: Wanted, from: int, i: int)
    requires
        0 <= from <= i < ms.len(),
        shared_message::is_wanted(ms[i], w),
        forall|k: int| from <= k < i ==> !shared_message::is_wanted(#[trigger] ms[k], w),
    ensures
        shared_message::first_wanted(ms, w, from) == Some(ms[i].data),
    decreases i - from,
{
    if from < i {
        assert(!shared_message::is_wanted(ms[from], w));
        lemma_wanted(ms, w, from + 1, i);
    }
}

proof fn lemma_unwanted(ms: Seq<HeaderMessageModel>, w: Wanted, from: int)
    requires
        0 <= from,
        forall|k: int| from <= k < ms.len() ==> !shared_message::is_wanted(#[trigger] ms[k], w),
    ensures
        shared_message::first_wanted(ms, w, from) is None,
    decreases ms.len() - from,
{
    if from < ms.len() {
        assert(!shared_message::is_wanted(ms[from], w));
        lemma_unwanted(ms, w, from + 1);
    }
}

/// Where no message of the wanted type is unshared, a reference to an object header stands for the
/// first message of that type. Where there is none of that type at all, it stands for the first
/// message that is no NIL message, and where there is no such message, for nothing.
#[verifier::rlimit(30)]
pub proof fn law_next_best_message_is_picked(ms: Seq<HeaderMessageModel>, t: MessageType)
    requires
        forall|k: int|
            0 <= k < ms.len() ==> (#[trigger] ms[k]).msg_type != t || ms[k].flags / 2 % 2 == 1,
    ensures
        forall|i: int|
            0 <= i < ms.len() && (#[trigger] ms[i]).msg_type == t && (forall|k: int|
                0 <= k < i ==> (#[trigger] ms[k]).msg_type != t) ==> shared_message::referenced(
                ms,
                t,
            ) == Some(ms[i].data),
        forall|i: int|
            0 <= i < ms.len() && (#[trigger] ms[i]).msg_type != MessageType::Nil && (forall|k: int|
                0 <= k < i ==> (#[trigger] ms[k]).msg_type == MessageType::Nil) && (forall|k: int|
                0 <= k < ms.len() ==> (#[trigger] ms[k]).msg_type != t)
                ==> shared_message::referenced(ms, t) == Some(ms[i].data),
        (forall|k: int|
            0 <= k < ms.len() ==> (#[trigger] ms[k]).msg_type == MessageType::Nil && ms[k].msg_type
                != t) ==> shared_message::referenced(ms, t) is None,
{
    lemma_unwanted(ms, Wanted::Own(t), 0);
    assert forall|i: int|
        0 <= i < ms.len() && (#[trigger] ms[i]).msg_type == t && (forall|k: int|
            0 <= k < i ==> (#[trigger] ms[k]).msg_type != t) implies shared_message::referenced(
        ms,
        t,
    ) == Some(ms[i].data) by {
        lemma_wanted(ms, Wanted::OfType(t), 0, i);
    }
    if forall|k: int| 0 <= k < ms.len() ==> (#[trigger] ms[k]).msg_type != t {
        lemma_unwanted(ms, Wanted::OfType(t), 0);
        assert forall|i: int|
            0 <= i < ms.len() && (#[trigger] ms[i]).msg_type != MessageType::Nil && (forall|k: int|
                0 <= k < i ==> (#[trigger] ms[k]).msg_type
                    == MessageType::Nil) implies shared_message::referenced(ms, t) == Some(
            ms[i].data,
        ) by {
            lemma_wanted(ms, Wanted::Any, 0, i);
        }
        if forall|k: int|
            0 <= k < ms.len() ==> (#[trigger] ms[k]).msg_type == MessageType::Nil {
            lemma_unwanted(ms, Wanted::Any, 0);
        }
    }
}

// ---- Tables ----

/// The message that names the table: version 0, the address of the table, the number of its
/// indexes.
pub open spec fn table_message_bytes(m: SohmTableMessage, os: u8) -> Seq<u8> {
    seq![0u8] + (places::field(m.table_address as int, os as int) + seq![m.nindexes])
}

/// The message that names the table is read as what was written in it.
#[verifier::rlimit(30)]
pub proof fn law_table_message_is_read_back(m: SohmTableMessage, rest: Seq<u8>, os: u8)
    requires
        crate::utils::is_width(os),
        m.version == 0,
        m.table_address < bytes::pow256(os as nat),
    ensures
        shared_message::table_message_of(table_message_bytes(m, os) + rest, os) == Ok::<
            SohmTableMessage,
            ErrorModel,
        >(m),
{
    let d = table_message_bytes(m, os) + rest;
    let a = places::field(m.table_address as int, os as int);
    let n = seq![m.nindexes];
    places::lemma_field_len(m.table_address as int, os as int);
    places::lemma_whole(d);
    places::lemma_parts(d, 0, seq![0u8] + (a + n), rest);
    places::lemma_parts(d, 0, seq![0u8], a + n);
    places::lemma_byte(d, 0, seq![0u8], 0);
    places::lemma_parts(d, 1, a, n);
    places::lemma_word(d, 1, m.table_address as int, os);
    places::lemma_byte(d, 1 + os, n, 0);
}

/// An index of the table: its type, the types of its messages, their least size, the numbers at
/// which its form changes, the number of its messages, its address, the address of its heap.
pub open spec fn index_bytes(x: SohmIndex, os: u8) -> Seq<u8> {
    seq![x.index_type] + (places::field(x.mesg_types as int, 2) + (places::field(
        x.min_mesg_size as int,
        4,
    ) + (places::field(x.list_max as int, 2) + (places::field(x.btree_min as int, 2) + (
    places::field(x.num_messages as int, 2) + (places::field(x.index_addr as int, os as int)
        + places::field(x.heap_addr as int, os as int)))))))
}

/// The indexes from the `k`-th on.
pub open spec fn indexes_bytes(xs: Seq<SohmIndex>, k: int, os: u8) -> Seq<u8>
    decreases xs.len() - k,
{
    if 0 <= k < xs.len() {
        index_bytes(xs[k], os) + indexes_bytes(xs, k + 1, os)
    } else {
        Seq::empty()
    }
}

/// Whether the fields of an index have room for its addresses.
pub open spec fn is_index(x: SohmIndex, os: u8) -> bool {
    &&& x.index_addr < bytes::pow256(os as nat)
    &&& x.heap_addr < bytes::pow256(os as nat)
}

proof fn lemma_index(d: Seq<u8>, q: int, x: SohmIndex, os: u8)
    requires
        crate::utils::is_width(os),
        is_index(x, os),
        places::stands(d, q, index_bytes(x, os)),
    ensures
        shared_message::index_at(d, q, os) == x,
        index_bytes(x, os).len() == 13 + 2 * os,
{
    let t = seq![x.index_type];
    let a = places::field(x.mesg_types as int, 2);
    let b = places::field(x.min_mesg_size as int, 4);
    let c = places::field(x.list_max as int, 2);
    let e = places::field(x.btree_min as int, 2);
    let f = places::field(x.num_messages as int, 2);
    let g = places::field(x.index_addr as int, os as int);
    let h = places::field(x.heap_addr as int, os as int);
    places::lemma_field_len(x.mesg_types as int, 2);
    places::lemma_field_len(x.min_mesg_size as int, 4);
    places::lemma_field_len(x.list_max as int, 2);
    places::lemma_field_len(x.btree_min as int, 2);
    places::lemma_field_len(x.num_messages as int, 2);
    places::lemma_field_len(x.index_addr as int, os as int);
    places::lemma_field_len(x.heap_addr as int, os as int);
    places::lemma_parts(d, q, t, a + (b + (c + (e + (f + (g + h))))));
    places::lemma_byte(d, q, t, 0);
    places::lemma_parts(d, q + 1, a, b + (c + (e + (f + (g + h)))));
    places::lemma_u16(d, q + 1, x.mesg_types as int);
    places::lemma_parts(d, q + 3, b, c + (e + (f + (g + h))));
    places::lemma_u32(d, q + 3, x.min_mesg_size as int);
    places::lemma_parts(d, q + 7, c, e + (f + (g + h)));
    places::lemma_u16(d, q + 7, x.list_max as int);
    places::lemma_parts(d, q + 9, e, f + (g + h));
    places::lemma_u16(d, q + 9, x.btree_min as int);
    places::lemma_parts(d, q + 11, f, g + h);
    places::lemma_u16(d, q + 11, x.num_messages as int);
    places::lemma_parts(d, q + 13, g, h);
    places::lemma_word(d, q + 13, x.index_addr as int, os);
    places::lemma_word(d, q + 13 + os, x.heap_addr as int, os);
}

proof fn lemma_indexes(d: Seq<u8>, q: int, xs: Seq<SohmIndex>, k: int, os: u8)
    requires
        crate::utils::is_width(os),
        0 <= k <= xs.len(),
        forall|i: int| 0 <= i < xs.len() ==> is_index(#[trigger] xs[i], os),
        places::stands(d, q, indexes_bytes(xs, k, os)),
    ensures
        shared_message::indexes_at(d, q, xs.len() - k, os, xs.take(k)) == Ok::<
            Seq<SohmIndex>,
            ErrorModel,
        >(xs),
    decreases xs.len() - k,
{
    if k < xs.len() {
        let b = index_bytes(xs[k], os);
        places::lemma_parts(d, q, b, indexes_bytes(xs, k + 1, os));
        lemma_index(d, q, xs[k], os);
        assert(xs.take(k).push(xs[k]) =~= xs.take(k + 1));
        lemma_indexes(d, q + 13 + 2 * os, xs, k + 1, os);
    } else {
        assert(xs.take(k) =~= xs);
    }
}

/// The table of shared messages is read as its indexes, in their order.
#[verifier::rlimit(30)]
pub proof fn law_table_is_read_back(d: Seq<u8>, p: int, xs: Seq<SohmIndex>, os: u8)
    requires
        crate::utils::is_width(os),
        forall|i: int| 0 <= i < xs.len() ==> is_index(#[trigger] xs[i], os),
        places::stands(d, p, seq![0x53u8, 0x4D, 0x54, 0x42] + indexes_bytes(xs, 0, os)),
    ensures
        shared_message::table_at(d, p, xs.len() as int, os) == Ok::<Seq<SohmIndex>, ErrorModel>(
            xs,
        ),
{
    let tag = seq![0x53u8, 0x4D, 0x54, 0x42];
    places::lemma_parts(d, p, tag, indexes_bytes(xs, 0, os));
    places::lemma_tag(d, p, tag);
    lemma_indexes(d, p + 4, xs, 0, os);
    assert(xs.take(0) =~= Seq::<SohmIndex>::empty());
}

// ---- Entries ----

/// An entry: its location and its hash, and then, for a message in the heap (location 0), the ID of
/// the object and the number of references to it, or, for one in an object header, its number among
/// the messages and the address of the header. All take as much room as the larger of the two.
pub open spec fn entry_bytes(e: SohmEntryModel, fill: Seq<u8>, os: u8) -> Seq<u8> {
    seq![e.location] + (places::field(e.hash as int, 4) + if e.location == 0 {
        e.heap_id->0 + (places::field(e.ref_count->0 as int, 4) + fill)
    } else {
        places::field(e.mesg_index->0 as int, 2) + (places::field(e.oh_addr->0 as int, os as int)
            + fill)
    })
}

/// Whether an entry has what its location calls for, and the fill brings it to its size.
pub open spec fn is_entry(e: SohmEntryModel, fill: Seq<u8>, os: u8) -> bool {
    &&& crate::utils::is_width(os)
    &&& if e.location == 0 {
        &&& e.heap_id matches Some(id) && id.len() == 8
        &&& e.ref_count is Some
        &&& e.mesg_index is None
        &&& e.oh_addr is None
        &&& fill.len() == 0
    } else {
        &&& e.heap_id is None
        &&& e.ref_count is None
        &&& e.mesg_index is Some
        &&& e.oh_addr matches Some(a) && a < bytes::pow256(os as nat)
        &&& fill.len() == 10 - os
    }
}

/// An entry is read as what was written in it, whatever stands behind it.
#[verifier::rlimit(30)]
pub proof fn law_entry_is_read_back(e: SohmEntryModel, fill: Seq<u8>, rest: Seq<u8>, os: u8)
    requires
        is_entry(e, fill, os),
    ensures
        shared_message::entry_of(entry_bytes(e, fill, os) + rest, os) == Ok::<
            SohmEntryModel,
            ErrorModel,
        >(e),
        entry_bytes(e, fill, os).len() == shared_message::entry_size(os),
{
    let d = entry_bytes(e, fill, os) + rest;
    let l = seq![e.location];
    let h = places::field(e.hash as int, 4);
    places::lemma_field_len(e.hash as int, 4);
    places::lemma_whole(d);
    if e.location == 0 {
        let id = e.heap_id->0;
        let n = places::field(e.ref_count->0 as int, 4);
        places::lemma_field_len(e.ref_count->0 as int, 4);
        places::lemma_parts(d, 0, l + (h + (id + (n + fill))), rest);
        places::lemma_parts(d, 0, l, h + (id + (n + fill)));
        places::lemma_byte(d, 0, l, 0);
        places::lemma_parts(d, 1, h, id + (n + fill));
        places::lemma_u32(d, 1, e.hash as int);
        places::lemma_parts(d, 5, id, n + fill);
        places::lemma_parts(d, 13, n, fill);
        places::lemma_u32(d, 13, e.ref_count->0 as int);
        assert(d.subrange(5, 13) == id);
    } else {
        let m = places::field(e.mesg_index->0 as int, 2);
        let a = places::field(e.oh_addr->0 as int, os as int);
        places::lemma_field_len(e.mesg_index->0 as int, 2);
        places::lemma_field_len(e.oh_addr->0 as int, os as int);
        places::lemma_parts(d, 0, l + (h + (m + (a + fill))), rest);
        places::lemma_parts(d, 0, l, h + (m + (a + fill)));
        places::lemma_byte(d, 0, l, 0);
        places::lemma_parts(d, 1, h, m + (a + fill));
        places::lemma_u32(d, 1, e.hash as int);
        places::lemma_parts(d, 5, m, a + fill);
        places::lemma_u16(d, 5, e.mesg_index->0 as int);
        places::lemma_parts(d, 7, a, fill);
        places::lemma_word(d, 7, e.oh_addr->0 as int, os);
    }
}

/// The entries from the `k`-th on.
pub open spec fn entries_bytes(es: Seq<SohmEntryModel>, fills: Seq<Seq<u8>>, k: int, os: u8) -> Seq<
    u8,
>
    decreases es.len() - k,
{
    if 0 <= k < es.len() {
        entry_bytes(es[k], fills[k], os) + entries_bytes(es, fills, k + 1, os)
    } else {
        Seq::empty()
    }
}

proof fn lemma_entries(
    d: Seq<u8>,
    q: int,
    es: Seq<SohmEntryModel>,
    fills: Seq<Seq<u8>>,
    k: int,
    os: u8,
)
    requires
        0 <= k <= es.len(),
        es.len() == fills.len(),
        forall|i: int| 0 <= i < es.len() ==> is_entry(#[trigger] es[i], fills[i], os),
        places::stands(d, q, entries_bytes(es, fills, k, os)),
    ensures
        shared_message::entries_at(d, q, es.len() - k, os, es.take(k)) == Ok::<
            Seq<SohmEntryModel>,
            ErrorModel,
        >(es),
    decreases es.len() - k,
{
    if k < es.len() {
        let b = entry_bytes(es[k], fills[k], os);
        places::lemma_parts(d, q, b, entries_bytes(es, fills, k + 1, os));
        assert(is_entry(es[k], fills[k], os));
        let rest = d.subrange(q + b.len(), d.len() as int);
        let tail = d.subrange(q, d.len() as int);
        assert forall|i: int| 0 <= i < tail.len() implies tail[i] == (b + rest)[i] by {
            if i < b.len() {
                places::lemma_byte(d, q, b, i);
            }
        }
        assert(tail =~= b + rest);
        law_entry_is_read_back(es[k], fills[k], rest, os);
        assert(es.take(k).push(es[k]) =~= es.take(k + 1));
        lemma_entries(d, q + b.len(), es, fills, k + 1, os);
    } else {
        assert(es.take(k) =~= es);
    }
}

/// A list of entries is read as its entries, in their order.
#[verifier::rlimit(30)]
pub proof fn law_list_is_read_back(
    d: Seq<u8>,
    p: int,
    es: Seq<SohmEntryModel>,
    fills: Seq<Seq<u8>>,
    os: u8,
)
    requires
        es.len() == fills.len(),
        forall|i: int| 0 <= i < es.len() ==> is_entry(#[trigger] es[i], fills[i], os),
        places::stands(d, p, seq![0x53u8, 0x4D, 0x4C, 0x49] + entries_bytes(es, fills, 0, os)),
    ensures
        shared_message::list_at(d, p, es.len() as int, os) == Ok::<
            Seq<SohmEntryModel>,
            ErrorModel,
        >(es),
{
    let tag = seq![0x53u8, 0x4D, 0x4C, 0x49];
    places::lemma_parts(d, p, tag, entries_bytes(es, fills, 0, os));
    places::lemma_tag(d, p, tag);
    lemma_entries(d, p + 4, es, fills, 0, os);
    assert(es.take(0) =~= Seq::<SohmEntryModel>::empty());
}

proof fn lemma_records(
    records: Seq<Seq<u8>>,
    es: Seq<SohmEntryModel>,
    fills: Seq<Seq<u8>>,
    n: int,
    os: u8,
)
    requires
        0 <= n <= es.len(),
        records.len() == es.len(),
        es.len() == fills.len(),
        forall|i: int|
            0 <= i < es.len() ==> is_entry(#[trigger] es[i], fills[i], os) && records[i]
                == entry_bytes(es[i], fills[i], os),
    ensures
        shared_message::record_entries(records, n, os) == Ok::<Seq<SohmEntryModel>, ErrorModel>(
            es.take(n),
        ),
    decreases n,
{
    if n > 0 {
        lemma_records(records, es, fills, n - 1, os);
        let e = es[n - 1];
        assert(is_entry(e, fills[n - 1], os));
        let none = Seq::<u8>::empty();
        law_entry_is_read_back(e, fills[n - 1], none, os);
        assert(records[n - 1] + none =~= records[n - 1]);
        assert(es.take(n - 1).push(e) =~= es.take(n));
    } else {
        assert(es.take(0) =~= Seq::<SohmEntryModel>::empty());
    }
}

/// The records of an index that is a tree are read as its entries, in their order.
#[verifier::rlimit(30)]
pub proof fn law_records_are_entries(
    records: Seq<Seq<u8>>,
    es: Seq<SohmEntryModel>,
    fills: Seq<Seq<u8>>,
    os: u8,
)
    requires
        records.len() == es.len(),
        es.len() == fills.len(),
        forall|i: int|
            0 <= i < es.len() ==> is_entry(#[trigger] es[i], fills[i], os) && records[i]
                == entry_bytes(es[i], fills[i], os),
    ensures
        shared_message::record_entries(records, records.len() as int, os) == Ok::<
            Seq<SohmEntryModel>,
            ErrorModel,
        >(es),
{
    lemma_records(records, es, fills, es.len() as int, os);
    assert(es.take(es.len() as int) =~= es);
}

// ---- Messages in the heap ----

proof fn lemma_bit(n: nat, k: nat)
    ensures
        shared_message::bit(n, k) <==> n / pow2(k) % 2 == 1,
    decreases k,
{
    vstd::arithmetic::power2::lemma_pow2_pos(k);
    if k == 0 {
        vstd::arithmetic::power2::lemma2_to64();
        assert(n / 1 == n);
    } else {
        let j = (k - 1) as nat;
        lemma_bit(n / 2, j);
        vstd::arithmetic::power2::lemma_pow2_pos(j);
        vstd::arithmetic::power2::lemma_pow2_unfold(k);
        vstd::arithmetic::div_mod::lemma_div_denominator(n as int, 2, pow2(j) as int);
    }
}

/// Whether an index keeps messages of the given type: each bit of its field of types stands for the
/// type with that number.
pub open spec fn keeps(x: SohmIndex, t: MessageType) -> bool {
    x.mesg_types as nat / pow2(crate::message_type::id_of_type(t) as nat) % 2 == 1
}

proof fn lemma_index_for(xs: Seq<SohmIndex>, t: MessageType, from: int, i: int)
    requires
        0 <= from <= i < xs.len(),
        keeps(xs[i], t),
        forall|k: int| from <= k < i ==> !keeps(#[trigger] xs[k], t),
    ensures
        shared_message::index_for(xs, t, from) == Some(xs[i]),
    decreases i - from,
{
    lemma_bit(xs[from].mesg_types as nat, crate::message_type::id_of_type(t) as nat);
    if from < i {
        assert(!keeps(xs[from], t));
        lemma_index_for(xs, t, from + 1, i);
    }
}

/// A shared message in the heap is the object, with the given ID, of the heap of the first index
/// that keeps messages of its type.
#[verifier::rlimit(30)]
pub proof fn law_shared_message_is_in_the_heap_of_its_index(
    d: Seq<u8>,
    id: Seq<u8>,
    xs: Seq<SohmIndex>,
    t: MessageType,
    i: int,
    heap: FractalHeapHeader,
    os: u8,
    ls: u8,
)
    requires
        crate::utils::is_width(os),
        0 <= i < xs.len(),
        keeps(xs[i], t),
        forall|k: int| 0 <= k < i ==> !keeps(#[trigger] xs[k], t),
        xs[i].heap_addr + 1 < bytes::pow256(os as nat),
        xs[i].heap_addr <= usize::MAX,
        crate::fractal_heap::header_at(d, xs[i].heap_addr as int, os, ls) == Ok::<
            FractalHeapHeader,
            ErrorModel,
        >(heap),
    ensures
        shared_message::sohm_message(d, id, xs, t, os, ls) == heap.object(d, id, os),
{
    lemma_index_for(xs, t, 0, i);
    bytes::lemma_pow256_values();
}

} // verus!

//! Object headers of version 1 with continuation blocks: how their messages stand in a file, and
//! which are read from it.

use vstd::prelude::*;
use crate::bytes;
use crate::error::ErrorModel;
use crate::object_header::{self, HeaderMessageModel, ObjectHeaderModel};
use crate::places;

verus! {

/// A message as it stands in a header: one that holds data of its own, or a continuation message,
/// which refers to a block with further messages at another place.
pub enum Stored {
    Plain { id: int, flags: u8, reserved: Seq<u8>, data: Seq<u8> },
    Continued { flags: u8, reserved: Seq<u8>, at: int, block: Seq<Stored>, extra: Seq<u8> },
}

// ---- Bytes ----

/// The message with a given ID and data: ID, size, flags, three reserved bytes, data.
pub open spec fn framed(id: int, flags: u8, reserved: Seq<u8>, data: Seq<u8>) -> Seq<u8> {
    places::field(id, 2) + (places::field(data.len() as int, 2) + (seq![flags] + (reserved
        + data)))
}

/// The data of a continuation message: the address and the length of the block.
pub open spec fn reference_data(at: int, length: int, extra: Seq<u8>, os: u8, ls: u8) -> Seq<u8> {
    places::field(at, os as int) + (places::field(length, ls as int) + extra)
}

pub open spec fn message_bytes(m: Stored, os: u8, ls: u8) -> Seq<u8>
    decreases m, 0int,
{
    match m {
        Stored::Plain { id, flags, reserved, data } => framed(id, flags, reserved, data),
        Stored::Continued { flags, reserved, at, block, extra } => framed(
            0x10,
            flags,
            reserved,
            reference_data(at, block_bytes(block, 0, os, ls).len() as int, extra, os, ls),
        ),
    }
}

/// The messages from the `k`-th on, one behind the other.
pub open spec fn block_bytes(ms: Seq<Stored>, k: int, os: u8, ls: u8) -> Seq<u8>
    decreases ms, ms.len() - k,
{
    if 0 <= k < ms.len() {
        message_bytes(ms[k], os, ls) + block_bytes(ms, k + 1, os, ls)
    } else {
        Seq::empty()
    }
}

/// The data of a message.
pub open spec fn data_of(m: Stored, os: u8, ls: u8) -> Seq<u8> {
    match m {
        Stored::Plain { data, .. } => data,
        Stored::Continued { at, block, extra, .. } => reference_data(
            at,
            block_bytes(block, 0, os, ls).len() as int,
            extra,
            os,
            ls,
        ),
    }
}

pub open spec fn id_of(m: Stored) -> int {
    match m {
        Stored::Plain { id, .. } => id,
        Stored::Continued { .. } => 0x10,
    }
}

pub open spec fn flags_of(m: Stored) -> u8 {
    match m {
        Stored::Plain { flags, .. } => flags,
        Stored::Continued { flags, .. } => flags,
    }
}

pub open spec fn reserved_of(m: Stored) -> Seq<u8> {
    match m {
        Stored::Plain { reserved, .. } => reserved,
        Stored::Continued { reserved, .. } => reserved,
    }
}

// ---- Meaning ----

/// The message that is read.
pub open spec fn model_of(m: Stored, os: u8, ls: u8) -> HeaderMessageModel {
    HeaderMessageModel {
        msg_type: crate::message_type::type_of_id(id_of(m) as u16),
        size: data_of(m, os, ls).len() as usize,
        flags: flags_of(m),
        creation_order: None,
        data: data_of(m, os, ls),
    }
}

/// What is read where a message stands: nothing for a NIL message (ID 0), a message of its own
/// otherwise, and right behind a continuation message all that is read from its block.
pub open spec fn listed(m: Stored, os: u8, ls: u8) -> Seq<HeaderMessageModel>
    decreases m, 0int,
{
    match m {
        Stored::Plain { id, .. } => if id == 0 {
            Seq::empty()
        } else {
            seq![model_of(m, os, ls)]
        },
        Stored::Continued { block, .. } => seq![model_of(m, os, ls)] + all_listed(
            block,
            0,
            os,
            ls,
        ),
    }
}

/// What is read where the messages from the `k`-th on stand.
pub open spec fn all_listed(ms: Seq<Stored>, k: int, os: u8, ls: u8) -> Seq<HeaderMessageModel>
    decreases ms, ms.len() - k,
{
    if 0 <= k < ms.len() {
        listed(ms[k], os, ls) + all_listed(ms, k + 1, os, ls)
    } else {
        Seq::empty()
    }
}

// ---- Places ----

/// Whether a message is complete: its fields fit, it need not be refused, and its block, if it has
/// one, stands where it says, with at most `depth` blocks in one another.
pub open spec fn is_placed(d: Seq<u8>, m: Stored, os: u8, ls: u8, depth: nat) -> bool
    decreases m, 0int,
{
    &&& reserved_of(m).len() == 3
    &&& data_of(m, os, ls).len() <= 0xFFFF
    &&& 0 <= id_of(m) <= 0xFFFF
    &&& match m {
        Stored::Plain { id, flags, .. } => {
            &&& id != 0x10
            &&& !object_header::is_refused(crate::message_type::type_of_id(id as u16), flags)
        },
        Stored::Continued { at, block, .. } => {
            &&& depth > 0
            &&& 0 <= at < bytes::pow256(os as nat)
            &&& block_bytes(block, 0, os, ls).len() < bytes::pow256(ls as nat)
            &&& places::stands(d, at, block_bytes(block, 0, os, ls))
            &&& all_placed(d, block, 0, os, ls, (depth - 1) as nat)
        },
    }
}

/// Whether the messages from the `k`-th on are complete.
pub open spec fn all_placed(d: Seq<u8>, ms: Seq<Stored>, k: int, os: u8, ls: u8, depth: nat) -> bool
    decreases ms, ms.len() - k,
{
    0 <= k < ms.len() ==> is_placed(d, ms[k], os, ls, depth) && all_placed(
        d,
        ms,
        k + 1,
        os,
        ls,
        depth,
    )
}

proof fn lemma_framed(d: Seq<u8>, p: int, m: Stored, os: u8, ls: u8)
    requires
        places::stands(d, p, message_bytes(m, os, ls)),
        reserved_of(m).len() == 3,
        data_of(m, os, ls).len() <= 0xFFFF,
        0 <= id_of(m) <= 0xFFFF,
    ensures
        object_header::message_v1_at(d, p) == model_of(m, os, ls),
        message_bytes(m, os, ls).len() == 8 + data_of(m, os, ls).len(),
        p + 8 + data_of(m, os, ls).len() <= d.len(),
{
    let data = data_of(m, os, ls);
    let id = places::field(id_of(m), 2);
    let size = places::field(data.len() as int, 2);
    let flags = seq![flags_of(m)];
    let reserved = reserved_of(m);
    assert(message_bytes(m, os, ls) == framed(id_of(m), flags_of(m), reserved, data));
    places::lemma_field_len(id_of(m), 2);
    places::lemma_field_len(data.len() as int, 2);
    places::lemma_parts(d, p, id, size + (flags + (reserved + data)));
    places::lemma_parts(d, p + 2, size, flags + (reserved + data));
    places::lemma_parts(d, p + 4, flags, reserved + data);
    places::lemma_byte(d, p + 4, flags, 0);
    places::lemma_parts(d, p + 5, reserved, data);
    places::lemma_u16(d, p, id_of(m));
    places::lemma_u16(d, p + 2, data.len() as int);
    assert(d.subrange(p + 8, p + 8 + data.len()) == data);
}

pub proof fn lemma_reference(at: int, length: int, extra: Seq<u8>, os: u8, ls: u8)
    requires
        crate::utils::is_width(os),
        crate::utils::is_width(ls),
        0 <= at < bytes::pow256(os as nat),
        0 <= length < bytes::pow256(ls as nat),
        at <= usize::MAX,
        length <= usize::MAX,
    ensures
        object_header::continuation_of(reference_data(at, length, extra, os, ls), os, ls) == Ok::<
            Option<(usize, usize)>,
            ErrorModel,
        >(Some((at as usize, length as usize))),
{
    let data = reference_data(at, length, extra, os, ls);
    let a = places::field(at, os as int);
    let b = places::field(length, ls as int);
    places::lemma_width_bound(os);
    places::lemma_width_bound(ls);
    places::lemma_field_len(at, os as int);
    places::lemma_field_len(length, ls as int);
    places::lemma_whole(data);
    places::lemma_parts(data, 0, a, b + extra);
    places::lemma_parts(data, os as int, b, extra);
    places::lemma_word(data, 0, at, os);
    places::lemma_word(data, os as int, length, ls);
}

#[verifier::spinoff_prover]
#[verifier::rlimit(40)]
proof fn lemma_followed(
    d: Seq<u8>,
    m: Stored,
    os: u8,
    ls: u8,
    depth: nat,
    done: Seq<HeaderMessageModel>,
)
    requires
        crate::utils::is_width(os),
        crate::utils::is_width(ls),
        d.len() <= usize::MAX,
        is_placed(d, m, os, ls, depth),
    ensures
        object_header::followed_v1(
            d,
            model_of(m, os, ls),
            os,
            ls,
            depth + 1,
            object_header::collect(done, model_of(m, os, ls)),
        ) == Ok::<Seq<HeaderMessageModel>, ErrorModel>(done + listed(m, os, ls)),
    decreases m, 0int,
{
    let model = model_of(m, os, ls);
    match m {
        Stored::Plain { id, .. } => {
            if id == 0 {
                assert(done + listed(m, os, ls) =~= done);
            } else {
                assert(done.push(model) =~= done + seq![model]);
            }
        },
        Stored::Continued { at, block, extra, .. } => {
            let b = block_bytes(block, 0, os, ls);
            let none = Seq::<HeaderMessageModel>::empty();
            lemma_reference(at, b.len() as int, extra, os, ls);
            lemma_block(d, at, block, 0, os, ls, (depth - 1) as nat, none);
            let more = all_listed(block, 0, os, ls);
            assert(none + more =~= more);
            assert(object_header::continuation_v1_at(d, at, b.len() as int, os, ls, depth) == Ok::<
                Seq<HeaderMessageModel>,
                ErrorModel,
            >(more));
            assert(done.push(model) + more =~= done + (seq![model] + more));
        },
    }
}

#[verifier::spinoff_prover]
#[verifier::rlimit(40)]
proof fn lemma_block(
    d: Seq<u8>,
    p: int,
    ms: Seq<Stored>,
    k: int,
    os: u8,
    ls: u8,
    depth: nat,
    done: Seq<HeaderMessageModel>,
)
    requires
        crate::utils::is_width(os),
        crate::utils::is_width(ls),
        d.len() <= usize::MAX,
        0 <= k <= ms.len(),
        places::stands(d, p, block_bytes(ms, k, os, ls)),
        all_placed(d, ms, k, os, ls, depth),
    ensures
        object_header::block_v1_at(
            d,
            p,
            p + block_bytes(ms, k, os, ls).len(),
            os,
            ls,
            depth + 1,
            done,
        ) == Ok::<Seq<HeaderMessageModel>, ErrorModel>(done + all_listed(ms, k, os, ls)),
    decreases ms, ms.len() - k,
{
    if k == ms.len() {
        assert(done + all_listed(ms, k, os, ls) =~= done);
    } else {
        let m = ms[k];
        let first = message_bytes(m, os, ls);
        let rest = block_bytes(ms, k + 1, os, ls);
        assert(is_placed(d, m, os, ls, depth));
        places::lemma_parts(d, p, first, rest);
        lemma_framed(d, p, m, os, ls);
        lemma_followed(d, m, os, ls, depth, done);
        let all = done + listed(m, os, ls);
        lemma_block(d, p + first.len(), ms, k + 1, os, ls, depth, all);
        assert(all + all_listed(ms, k + 1, os, ls) =~= done + (listed(m, os, ls) + all_listed(
            ms,
            k + 1,
            os,
            ls,
        )));
    }
}

#[verifier::spinoff_prover]
#[verifier::rlimit(40)]
proof fn lemma_first_block(
    d: Seq<u8>,
    p: int,
    ms: Seq<Stored>,
    k: int,
    count: nat,
    os: u8,
    ls: u8,
    done: Seq<HeaderMessageModel>,
)
    requires
        crate::utils::is_width(os),
        crate::utils::is_width(ls),
        d.len() <= usize::MAX,
        0 <= k <= ms.len(),
        ms.len() - k <= count,
        places::stands(d, p, block_bytes(ms, k, os, ls)),
        all_placed(d, ms, k, os, ls, 32),
    ensures
        object_header::messages_v1_at(
            d,
            p,
            p + block_bytes(ms, k, os, ls).len(),
            count,
            os,
            ls,
            done,
        ) == Ok::<Seq<HeaderMessageModel>, ErrorModel>(done + all_listed(ms, k, os, ls)),
    decreases ms.len() - k,
{
    if k == ms.len() {
        assert(done + all_listed(ms, k, os, ls) =~= done);
    } else {
        let m = ms[k];
        let first = message_bytes(m, os, ls);
        let rest = block_bytes(ms, k + 1, os, ls);
        assert(is_placed(d, m, os, ls, 32));
        places::lemma_parts(d, p, first, rest);
        lemma_framed(d, p, m, os, ls);
        lemma_followed(d, m, os, ls, 32, done);
        let all = done + listed(m, os, ls);
        lemma_first_block(d, p + first.len(), ms, k + 1, (count - 1) as nat, os, ls, all);
        assert(all + all_listed(ms, k + 1, os, ls) =~= done + (listed(m, os, ls) + all_listed(
            ms,
            k + 1,
            os,
            ls,
        )));
    }
}

// ---- Headers ----

/// A header of version 1: version, a reserved byte, the number of messages, the reference count,
/// the size of the messages, four bytes that align them, the messages.
pub open spec fn header_bytes(
    ms: Seq<Stored>,
    reserved: u8,
    count: int,
    references: u32,
    alignment: Seq<u8>,
    os: u8,
    ls: u8,
) -> Seq<u8> {
    seq![1u8, reserved] + (places::field(count, 2) + (places::field(references as int, 4) + (
    places::field(block_bytes(ms, 0, os, ls).len() as int, 4) + (alignment + block_bytes(
        ms,
        0,
        os,
        ls,
    )))))
}

/// Whether a header of version 1 with the given messages stands at `p`, and the blocks that they
/// refer to where they say, at most 32 in one another. The number of messages that it names counts
/// at least those that stand in the header itself.
pub open spec fn header_stands(
    d: Seq<u8>,
    p: int,
    ms: Seq<Stored>,
    reserved: u8,
    count: int,
    references: u32,
    alignment: Seq<u8>,
    os: u8,
    ls: u8,
) -> bool {
    &&& crate::utils::is_width(os)
    &&& crate::utils::is_width(ls)
    &&& d.len() <= usize::MAX
    &&& ms.len() <= count <= 0xFFFF
    &&& alignment.len() == 4
    &&& block_bytes(ms, 0, os, ls).len() <= 0xFFFF_FFFF
    &&& places::stands(d, p, header_bytes(ms, reserved, count, references, alignment, os, ls))
    &&& all_placed(d, ms, 0, os, ls, 32)
}

/// The messages of a header of version 1 are those that stand in it, and right behind each
/// continuation message those of the block that it refers to, with the blocks that these refer to
/// in turn. Only NIL messages are left out.
#[verifier::spinoff_prover]
#[verifier::rlimit(60)]
pub proof fn law_header_is_read_back(
    d: Seq<u8>,
    p: int,
    ms: Seq<Stored>,
    reserved: u8,
    count: int,
    references: u32,
    alignment: Seq<u8>,
    os: u8,
    ls: u8,
)
    requires
        header_stands(d, p, ms, reserved, count, references, alignment, os, ls),
    ensures
        object_header::header_at(d, p, os, ls) == Ok::<ObjectHeaderModel, ErrorModel>(
            ObjectHeaderModel {
                version: 1,
                messages: all_listed(ms, 0, os, ls),
                reference_count: Some(references),
                flags: 0,
                access_time: None,
                modification_time: None,
                change_time: None,
                birth_time: None,
            },
        ),
{
    let body = block_bytes(ms, 0, os, ls);
    let size = places::field(body.len() as int, 4);
    let refs = places::field(references as int, 4);
    let number = places::field(count, 2);
    let front = seq![1u8, reserved];
    places::lemma_field_len(body.len() as int, 4);
    places::lemma_field_len(references as int, 4);
    places::lemma_field_len(count, 2);
    places::lemma_parts(d, p, front, number + (refs + (size + (alignment + body))));
    places::lemma_byte(d, p, front, 0);
    places::lemma_parts(d, p + 2, number, refs + (size + (alignment + body)));
    places::lemma_parts(d, p + 4, refs, size + (alignment + body));
    places::lemma_parts(d, p + 8, size, alignment + body);
    places::lemma_parts(d, p + 12, alignment, body);
    places::lemma_u16(d, p + 2, count);
    places::lemma_u32(d, p + 4, references as int);
    places::lemma_u32(d, p + 8, body.len() as int);
    assert(d[p] == 1u8);
    assert(!bytes::has_tag(d, p, object_header::ohdr())) by {
        assert(d.subrange(p, p + 4)[0] == d[p]);
        assert(object_header::ohdr()[0] == 0x4F);
    }
    let none = Seq::<HeaderMessageModel>::empty();
    lemma_first_block(d, p + 16, ms, 0, count as nat, os, ls, none);
    assert(none + all_listed(ms, 0, os, ls) =~= all_listed(ms, 0, os, ls));
}

proof fn lemma_listed_parts(a: Seq<Stored>, b: Seq<Stored>, k: int, os: u8, ls: u8)
    requires
        0 <= k <= a.len(),
    ensures
        all_listed(a + b, k, os, ls) == all_listed(a, k, os, ls) + all_listed(b, 0, os, ls),
    decreases a.len() - k,
{
    if k < a.len() {
        assert((a + b)[k] == a[k]);
        lemma_listed_parts(a, b, k + 1, os, ls);
        assert(all_listed(a + b, k, os, ls) =~= all_listed(a, k, os, ls) + all_listed(
            b,
            0,
            os,
            ls,
        ));
    } else {
        lemma_listed_shifted(a, b, 0, os, ls);
        assert(all_listed(a, k, os, ls) + all_listed(b, 0, os, ls) =~= all_listed(b, 0, os, ls));
    }
}

proof fn lemma_listed_shifted(a: Seq<Stored>, b: Seq<Stored>, k: int, os: u8, ls: u8)
    requires
        0 <= k <= b.len(),
    ensures
        all_listed(a + b, a.len() + k, os, ls) == all_listed(b, k, os, ls),
    decreases b.len() - k,
{
    if k < b.len() {
        assert((a + b)[a.len() + k] == b[k]);
        lemma_listed_shifted(a, b, k + 1, os, ls);
    }
}

/// The messages of a continuation block stand in the parsed header right behind the message that
/// refers to it, before those that follow that message.
#[verifier::rlimit(30)]
pub proof fn law_block_follows_its_message(
    d: Seq<u8>,
    p: int,
    before: Seq<Stored>,
    m: Stored,
    after: Seq<Stored>,
    reserved: u8,
    count: int,
    references: u32,
    alignment: Seq<u8>,
    os: u8,
    ls: u8,
)
    requires
        m is Continued,
        header_stands(
            d,
            p,
            before + (seq![m] + after),
            reserved,
            count,
            references,
            alignment,
            os,
            ls,
        ),
    ensures
        object_header::header_at(d, p, os, ls) matches Ok(header) && header.messages == all_listed(
            before,
            0,
            os,
            ls,
        ) + (seq![model_of(m, os, ls)] + (all_listed(m->block, 0, os, ls) + all_listed(
            after,
            0,
            os,
            ls,
        ))),
{
    let ms = before + (seq![m] + after);
    law_header_is_read_back(d, p, ms, reserved, count, references, alignment, os, ls);
    lemma_listed_parts(before, seq![m] + after, 0, os, ls);
    lemma_listed_parts(seq![m], after, 0, os, ls);
    assert(seq![m][0] == m);
    assert(all_listed(seq![m], 1, os, ls) =~= Seq::<HeaderMessageModel>::empty());
    assert(all_listed(seq![m], 0, os, ls) =~= listed(m, os, ls));
    let one = seq![model_of(m, os, ls)];
    let inner = all_listed(m->block, 0, os, ls);
    let rest = all_listed(after, 0, os, ls);
    assert((one + inner) + rest =~= one + (inner + rest));
}

/// Each message of a continuation block other than a NIL message occurs in the parsed header, with
/// its type and its data.
#[verifier::rlimit(30)]
pub proof fn law_message_of_a_block_occurs(
    d: Seq<u8>,
    p: int,
    ms: Seq<Stored>,
    i: int,
    j: int,
    reserved: u8,
    count: int,
    references: u32,
    alignment: Seq<u8>,
    os: u8,
    ls: u8,
)
    requires
        header_stands(d, p, ms, reserved, count, references, alignment, os, ls),
        0 <= i < ms.len(),
        ms[i] is Continued,
        0 <= j < ms[i]->block.len(),
        id_of(ms[i]->block[j]) != 0,
    ensures
        object_header::header_at(d, p, os, ls) matches Ok(header) && header.messages.contains(
            model_of(ms[i]->block[j], os, ls),
        ),
{
    law_header_is_read_back(d, p, ms, reserved, count, references, alignment, os, ls);
    let block = ms[i]->block;
    lemma_occurs(block, j, 0, model_of(block[j], os, ls), os, ls);
    let one = seq![model_of(ms[i], os, ls)];
    let inner = all_listed(block, 0, os, ls);
    let n = inner.index_of(model_of(block[j], os, ls));
    assert((one + inner)[n + 1] == inner[n]);
    lemma_occurs(ms, i, 0, model_of(block[j], os, ls), os, ls);
}

proof fn lemma_occurs(
    ms: Seq<Stored>,
    i: int,
    k: int,
    model: HeaderMessageModel,
    os: u8,
    ls: u8,
)
    requires
        0 <= k <= i < ms.len(),
        listed(ms[i], os, ls).contains(model) || id_of(ms[i]) != 0 && model == model_of(
            ms[i],
            os,
            ls,
        ),
    ensures
        all_listed(ms, k, os, ls).contains(model),
    decreases i - k,
{
    let first = listed(ms[k], os, ls);
    let rest = all_listed(ms, k + 1, os, ls);
    if k < i {
        lemma_occurs(ms, i, k + 1, model, os, ls);
        let n = rest.index_of(model);
        assert((first + rest)[first.len() + n] == model);
    } else {
        if !first.contains(model) {
            assert(first[0] == model);
        }
        let n = first.index_of(model);
        assert((first + rest)[n] == model);
    }
}

} // verus!

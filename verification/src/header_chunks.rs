//! Object headers of version 2 with continuation chunks: how their messages stand in a file, and
//! which are read from it.

use vstd::prelude::*;
use crate::bytes;
use crate::error::ErrorModel;
use crate::object_header::{self, HeaderMessageModel, ObjectHeaderModel};
use crate::places;

verus! {

/// A message as it stands in a chunk: one that holds data of its own, or a continuation message,
/// which refers to another chunk. Behind the messages of a chunk can stand a few bytes that are
/// too few for another message.
pub enum Part {
    Plain { id: u8, flags: u8, order: u16, data: Seq<u8> },
    Continued { flags: u8, order: u16, at: int, block: Seq<Part>, gap: Seq<u8>, extra: Seq<u8> },
}

// ---- Bytes ----

/// The message with a given ID and data: ID, size, flags, its number if messages have one, data.
pub open spec fn framed(id: u8, flags: u8, order: u16, data: Seq<u8>, ordered: bool) -> Seq<u8> {
    seq![id] + (places::field(data.len() as int, 2) + (seq![flags] + ((if ordered {
        places::field(order as int, 2)
    } else {
        Seq::empty()
    }) + data)))
}

pub open spec fn part_bytes(m: Part, ordered: bool, os: u8, ls: u8) -> Seq<u8>
    decreases m, 0int, 1int,
{
    match m {
        Part::Plain { id, flags, order, data } => framed(id, flags, order, data, ordered),
        Part::Continued { flags, order, at, block, gap, extra } => framed(
            0x10,
            flags,
            order,
            crate::header_blocks::reference_data(
                at,
                8 + parts_bytes(block, 0, ordered, os, ls).len() as int + gap.len(),
                extra,
                os,
                ls,
            ),
            ordered,
        ),
    }
}

/// The messages from the `k`-th on, one behind the other.
pub open spec fn parts_bytes(ms: Seq<Part>, k: int, ordered: bool, os: u8, ls: u8) -> Seq<u8>
    decreases ms, ms.len() - k, 0int,
{
    if 0 <= k < ms.len() {
        part_bytes(ms[k], ordered, os, ls) + parts_bytes(ms, k + 1, ordered, os, ls)
    } else {
        Seq::empty()
    }
}

/// Bytes with their checksum behind them.
pub open spec fn sealed(b: Seq<u8>) -> Seq<u8> {
    b + places::field(crate::checksum::lookup3(b) as int, 4)
}

/// A continuation chunk: its tag, its messages, the gap, the checksum.
pub open spec fn chunk_bytes(ms: Seq<Part>, gap: Seq<u8>, ordered: bool, os: u8, ls: u8) -> Seq<u8> {
    sealed(seq![0x4Fu8, 0x43, 0x48, 0x4B] + (parts_bytes(ms, 0, ordered, os, ls) + gap))
}

// ---- Meaning ----

pub open spec fn data_of(m: Part, ordered: bool, os: u8, ls: u8) -> Seq<u8> {
    match m {
        Part::Plain { data, .. } => data,
        Part::Continued { at, block, gap, extra, .. } => crate::header_blocks::reference_data(
            at,
            8 + parts_bytes(block, 0, ordered, os, ls).len() as int + gap.len(),
            extra,
            os,
            ls,
        ),
    }
}

pub open spec fn id_of(m: Part) -> u8 {
    match m {
        Part::Plain { id, .. } => id,
        Part::Continued { .. } => 0x10,
    }
}

pub open spec fn flags_of(m: Part) -> u8 {
    match m {
        Part::Plain { flags, .. } => flags,
        Part::Continued { flags, .. } => flags,
    }
}

pub open spec fn order_of(m: Part) -> u16 {
    match m {
        Part::Plain { order, .. } => order,
        Part::Continued { order, .. } => order,
    }
}

/// The message that is read.
pub open spec fn model_of(m: Part, ordered: bool, os: u8, ls: u8) -> HeaderMessageModel {
    HeaderMessageModel {
        msg_type: crate::message_type::type_of_id(id_of(m) as u16),
        size: data_of(m, ordered, os, ls).len() as usize,
        flags: flags_of(m),
        creation_order: if ordered {
            Some(order_of(m))
        } else {
            None
        },
        data: data_of(m, ordered, os, ls),
    }
}

/// Those of the first `k` messages that are kept: neither NIL messages (ID 0) nor continuation
/// messages.
pub open spec fn own(ms: Seq<Part>, k: int, ordered: bool, os: u8, ls: u8) -> Seq<
    HeaderMessageModel,
>
    decreases k,
{
    if k <= 0 {
        Seq::empty()
    } else if ms[k - 1] is Plain && id_of(ms[k - 1]) != 0 {
        own(ms, k - 1, ordered, os, ls).push(model_of(ms[k - 1], ordered, os, ls))
    } else {
        own(ms, k - 1, ordered, os, ls)
    }
}

/// What is kept of the chunks that the first `k` messages refer to, with the chunks that these
/// refer to in turn: the last chunk first.
pub open spec fn below(ms: Seq<Part>, k: int, ordered: bool, os: u8, ls: u8) -> Seq<
    HeaderMessageModel,
>
    decreases ms, k,
{
    if 0 < k <= ms.len() {
        match ms[k - 1] {
            Part::Plain { .. } => below(ms, k - 1, ordered, os, ls),
            Part::Continued { block, .. } => (own(block, block.len() as int, ordered, os, ls)
                + below(block, block.len() as int, ordered, os, ls)) + below(
                ms,
                k - 1,
                ordered,
                os,
                ls,
            ),
        }
    } else {
        Seq::empty()
    }
}

/// The number of chunks that the first `k` messages refer to, directly or not.
pub open spec fn chunks_below(ms: Seq<Part>, k: int) -> nat
    decreases ms, k,
{
    if 0 < k <= ms.len() {
        match ms[k - 1] {
            Part::Plain { .. } => chunks_below(ms, k - 1),
            Part::Continued { block, .. } => 1 + chunks_below(block, block.len() as int)
                + chunks_below(ms, k - 1),
        }
    } else {
        0
    }
}

// ---- Places ----

/// Whether a message is complete: its fields fit, it need not be refused, and its chunk, if it has
/// one, stands where it says.
pub open spec fn is_placed(d: Seq<u8>, m: Part, ordered: bool, os: u8, ls: u8) -> bool
    decreases m, 0int,
{
    &&& data_of(m, ordered, os, ls).len() <= 0xFFFF
    &&& match m {
        Part::Plain { id, flags, .. } => {
            &&& id != 0x10
            &&& !object_header::is_refused(crate::message_type::type_of_id(id as u16), flags)
        },
        Part::Continued { at, block, gap, .. } => {
            &&& 0 <= at < bytes::pow256(os as nat)
            &&& 8 + parts_bytes(block, 0, ordered, os, ls).len() + gap.len() < bytes::pow256(
                ls as nat,
            )
            &&& gap.len() < object_header::prefix_v2(ordered)
            &&& places::stands(d, at, chunk_bytes(block, gap, ordered, os, ls))
            &&& all_placed(d, block, 0, ordered, os, ls)
        },
    }
}

/// Whether the messages from the `k`-th on are complete.
pub open spec fn all_placed(d: Seq<u8>, ms: Seq<Part>, k: int, ordered: bool, os: u8, ls: u8) -> bool
    decreases ms, ms.len() - k,
{
    0 <= k < ms.len() ==> is_placed(d, ms[k], ordered, os, ls) && all_placed(
        d,
        ms,
        k + 1,
        ordered,
        os,
        ls,
    )
}

proof fn lemma_placed(d: Seq<u8>, ms: Seq<Part>, k: int, i: int, ordered: bool, os: u8, ls: u8)
    requires
        all_placed(d, ms, k, ordered, os, ls),
        0 <= k <= i < ms.len(),
    ensures
        is_placed(d, ms[i], ordered, os, ls),
    decreases i - k,
{
    if k < i {
        lemma_placed(d, ms, k + 1, i, ordered, os, ls);
    }
}

proof fn lemma_framed(d: Seq<u8>, p: int, m: Part, ordered: bool, os: u8, ls: u8)
    requires
        places::stands(d, p, part_bytes(m, ordered, os, ls)),
        data_of(m, ordered, os, ls).len() <= 0xFFFF,
    ensures
        object_header::message_v2_at(d, p, ordered) == model_of(m, ordered, os, ls),
        part_bytes(m, ordered, os, ls).len() == object_header::prefix_v2(ordered) + data_of(
            m,
            ordered,
            os,
            ls,
        ).len(),
{
    let data = data_of(m, ordered, os, ls);
    let id = seq![id_of(m)];
    let size = places::field(data.len() as int, 2);
    let flags = seq![flags_of(m)];
    let number = if ordered {
        places::field(order_of(m) as int, 2)
    } else {
        Seq::empty()
    };
    assert(part_bytes(m, ordered, os, ls) == framed(
        id_of(m),
        flags_of(m),
        order_of(m),
        data,
        ordered,
    ));
    places::lemma_field_len(order_of(m) as int, 2);
    places::lemma_field_len(data.len() as int, 2);
    places::lemma_parts(d, p, id, size + (flags + (number + data)));
    places::lemma_byte(d, p, id, 0);
    places::lemma_parts(d, p + 1, size, flags + (number + data));
    places::lemma_u16(d, p + 1, data.len() as int);
    places::lemma_parts(d, p + 3, flags, number + data);
    places::lemma_byte(d, p + 3, flags, 0);
    places::lemma_parts(d, p + 4, number, data);
    if ordered {
        places::lemma_u16(d, p + 4, order_of(m) as int);
    }
    let q = p + object_header::prefix_v2(ordered);
    assert(d.subrange(q, q + data.len()) == data);
}

/// The chunks that the first `k` messages refer to directly: their addresses and lengths.
spec fn pending(ms: Seq<Part>, k: int, ordered: bool, os: u8, ls: u8) -> Seq<(usize, usize)>
    decreases k,
{
    if k <= 0 {
        Seq::empty()
    } else {
        match ms[k - 1] {
            Part::Plain { .. } => pending(ms, k - 1, ordered, os, ls),
            Part::Continued { at, block, gap, .. } => pending(ms, k - 1, ordered, os, ls).push(
                (
                    at as usize,
                    (8 + parts_bytes(block, 0, ordered, os, ls).len() as int + gap.len()) as usize,
                ),
            ),
        }
    }
}

pub proof fn lemma_sealed(d: Seq<u8>, p: int, b: Seq<u8>)
    requires
        places::stands(d, p, sealed(b)),
    ensures
        sealed(b).len() == b.len() + 4,
        places::stands(d, p, b),
        p + b.len() + 4 <= d.len(),
        crate::utils::stored_checksum(d, p, p + b.len()) == Ok::<(), ErrorModel>(()),
{
    let sum = crate::checksum::lookup3(b);
    places::lemma_field_len(sum as int, 4);
    places::lemma_parts(d, p, b, places::field(sum as int, 4));
    places::lemma_u32(d, p + b.len(), sum as int);
}

proof fn lemma_chunk_len(ms: Seq<Part>, gap: Seq<u8>, ordered: bool, os: u8, ls: u8)
    ensures
        chunk_bytes(ms, gap, ordered, os, ls).len() == 4 + parts_bytes(
            ms,
            0,
            ordered,
            os,
            ls,
        ).len() + gap.len() + 4,
{
    let b = seq![0x4Fu8, 0x43, 0x48, 0x4B] + (parts_bytes(ms, 0, ordered, os, ls) + gap);
    places::lemma_field_len(crate::checksum::lookup3(b) as int, 4);
}

#[verifier::spinoff_prover]
#[verifier::rlimit(40)]
proof fn lemma_parts_read(
    d: Seq<u8>,
    p: int,
    end: int,
    ms: Seq<Part>,
    k: int,
    ordered: bool,
    os: u8,
    ls: u8,
    done: Seq<HeaderMessageModel>,
    waiting: Seq<(usize, usize)>,
)
    requires
        crate::utils::is_width(os),
        crate::utils::is_width(ls),
        d.len() <= usize::MAX,
        0 <= k <= ms.len(),
        places::stands(d, p, parts_bytes(ms, k, ordered, os, ls)),
        0 <= end - (p + parts_bytes(ms, k, ordered, os, ls).len()) < object_header::prefix_v2(
            ordered,
        ),
        all_placed(d, ms, k, ordered, os, ls),
    ensures
        object_header::chunk_v2_at(
            d,
            p,
            end,
            ordered,
            os,
            ls,
            done + own(ms, k, ordered, os, ls),
            waiting + pending(ms, k, ordered, os, ls),
        ) == Ok::<(Seq<HeaderMessageModel>, Seq<(usize, usize)>), ErrorModel>(
            (
                done + own(ms, ms.len() as int, ordered, os, ls),
                waiting + pending(ms, ms.len() as int, ordered, os, ls),
            ),
        ),
    decreases ms.len() - k,
{
    if k < ms.len() {
        let m = ms[k];
        let first = part_bytes(m, ordered, os, ls);
        let rest = parts_bytes(ms, k + 1, ordered, os, ls);
        assert(is_placed(d, m, ordered, os, ls));
        places::lemma_parts(d, p, first, rest);
        lemma_framed(d, p, m, ordered, os, ls);
        let model = model_of(m, ordered, os, ls);
        let kept = own(ms, k, ordered, os, ls);
        let left = pending(ms, k, ordered, os, ls);
        match m {
            Part::Plain { id, .. } => {
                assert((done + kept).push(model) =~= done + kept.push(model));
            },
            Part::Continued { at, block, gap, extra, .. } => {
                let n = 8 + parts_bytes(block, 0, ordered, os, ls).len() as int + gap.len();
                lemma_chunk_len(block, gap, ordered, os, ls);
                crate::header_blocks::lemma_reference(at, n, extra, os, ls);
                let next = (at as usize, n as usize);
                assert((waiting + left).push(next) =~= waiting + left.push(next));
            },
        }
        lemma_parts_read(
            d,
            p + first.len(),
            end,
            ms,
            k + 1,
            ordered,
            os,
            ls,
            done,
            waiting,
        );
    }
}

proof fn lemma_chunk_read(
    d: Seq<u8>,
    at: int,
    block: Seq<Part>,
    gap: Seq<u8>,
    ordered: bool,
    os: u8,
    ls: u8,
    done: Seq<HeaderMessageModel>,
    waiting: Seq<(usize, usize)>,
)
    requires
        crate::utils::is_width(os),
        crate::utils::is_width(ls),
        d.len() <= usize::MAX,
        gap.len() < object_header::prefix_v2(ordered),
        places::stands(d, at, chunk_bytes(block, gap, ordered, os, ls)),
        all_placed(d, block, 0, ordered, os, ls),
    ensures
        object_header::continuation_v2_at(
            d,
            at,
            chunk_bytes(block, gap, ordered, os, ls).len() as int,
            ordered,
            os,
            ls,
            done,
            waiting,
        ) == Ok::<(Seq<HeaderMessageModel>, Seq<(usize, usize)>), ErrorModel>(
            (
                done + own(block, block.len() as int, ordered, os, ls),
                waiting + pending(block, block.len() as int, ordered, os, ls),
            ),
        ),
{
    let tag = seq![0x4Fu8, 0x43, 0x48, 0x4B];
    let all = parts_bytes(block, 0, ordered, os, ls);
    let b = tag + (all + gap);
    lemma_sealed(d, at, b);
    places::lemma_parts(d, at, tag, all + gap);
    places::lemma_tag(d, at, tag);
    places::lemma_parts(d, at + 4, all, gap);
    assert(tag == object_header::ochk());
    assert(done + own(block, 0, ordered, os, ls) =~= done);
    assert(waiting + pending(block, 0, ordered, os, ls) =~= waiting);
    lemma_parts_read(
        d,
        at + 4,
        at + b.len(),
        block,
        0,
        ordered,
        os,
        ls,
        done,
        waiting,
    );
}

#[verifier::spinoff_prover]
#[verifier::rlimit(60)]
proof fn lemma_followed(
    d: Seq<u8>,
    ms: Seq<Part>,
    k: int,
    ordered: bool,
    os: u8,
    ls: u8,
    left: nat,
    done: Seq<HeaderMessageModel>,
    waiting: Seq<(usize, usize)>,
)
    requires
        crate::utils::is_width(os),
        crate::utils::is_width(ls),
        d.len() <= usize::MAX,
        0 <= k <= ms.len(),
        all_placed(d, ms, 0, ordered, os, ls),
        chunks_below(ms, k) <= left,
    ensures
        object_header::followed_v2(
            d,
            ordered,
            os,
            ls,
            left,
            done,
            waiting + pending(ms, k, ordered, os, ls),
        ) == object_header::followed_v2(
            d,
            ordered,
            os,
            ls,
            (left - chunks_below(ms, k)) as nat,
            done + below(ms, k, ordered, os, ls),
            waiting,
        ),
    decreases ms, k,
{
    if k == 0 {
        assert(waiting + pending(ms, k, ordered, os, ls) =~= waiting);
        assert(done + below(ms, k, ordered, os, ls) =~= done);
    } else {
        lemma_placed(d, ms, 0, k - 1, ordered, os, ls);
        match ms[k - 1] {
            Part::Plain { .. } => {
                lemma_followed(d, ms, k - 1, ordered, os, ls, left, done, waiting);
            },
            Part::Continued { at, block, gap, .. } => {
                let before = waiting + pending(ms, k - 1, ordered, os, ls);
                let n = block.len() as int;
                let all = waiting + pending(ms, k, ordered, os, ls);
                let first = own(block, n, ordered, os, ls);
                let inner = below(block, n, ordered, os, ls);
                let rest = below(ms, k - 1, ordered, os, ls);
                lemma_chunk_len(block, gap, ordered, os, ls);
                lemma_chunk_read(d, at, block, gap, ordered, os, ls, done, before);
                assert(all.drop_last() =~= before);
                assert(all.last() == (
                    at as usize,
                    chunk_bytes(block, gap, ordered, os, ls).len() as usize,
                ));
                let one = (left - 1) as nat;
                lemma_followed(d, block, n, ordered, os, ls, one, done + first, before);
                let two = (one - chunks_below(block, n)) as nat;
                lemma_followed(
                    d,
                    ms,
                    k - 1,
                    ordered,
                    os,
                    ls,
                    two,
                    (done + first) + inner,
                    waiting,
                );
                assert(((done + first) + inner) + rest =~= done + ((first + inner) + rest));
            },
        }
    }
}

// ---- Headers ----

/// The bytes that a size takes: one, two, four or eight, by the two low bits of the flags.
pub open spec fn size_bytes(flags: u8) -> int {
    match (flags % 4) as u8 {
        0 => 1,
        1 => 2,
        2 => 4,
        _ => 8,
    }
}

/// The times of access, of modification, of change and of birth, if the flags say so.
pub open spec fn times_bytes(flags: u8, times: Seq<u32>) -> Seq<u8> {
    if flags / 32 % 2 == 1 {
        places::field(times[0] as int, 4) + (places::field(times[1] as int, 4) + (places::field(
            times[2] as int,
            4,
        ) + places::field(times[3] as int, 4)))
    } else {
        Seq::empty()
    }
}

/// A header of version 2: tag, version, flags, times and limits if the flags say so, the size of
/// the messages, the messages, a gap, the checksum.
pub open spec fn header_bytes(
    flags: u8,
    times: Seq<u32>,
    limits: Seq<u8>,
    ms: Seq<Part>,
    gap: Seq<u8>,
    os: u8,
    ls: u8,
) -> Seq<u8> {
    let body = parts_bytes(ms, 0, flags / 4 % 2 == 1, os, ls) + gap;
    sealed(
        seq![0x4Fu8, 0x48, 0x44, 0x52] + (seq![2u8, flags] + (times_bytes(flags, times) + (limits
            + (places::field(body.len() as int, size_bytes(flags)) + body)))),
    )
}

/// Whether a header of version 2 with the given messages stands at `p`, and the chunks that they
/// refer to where they say, at most 256 in all.
pub open spec fn header_stands(
    d: Seq<u8>,
    p: int,
    flags: u8,
    times: Seq<u32>,
    limits: Seq<u8>,
    ms: Seq<Part>,
    gap: Seq<u8>,
    os: u8,
    ls: u8,
) -> bool {
    let ordered = flags / 4 % 2 == 1;
    &&& crate::utils::is_width(os)
    &&& crate::utils::is_width(ls)
    &&& d.len() <= usize::MAX
    &&& times.len() == 4
    &&& limits.len() == if flags / 16 % 2 == 1 {
        4int
    } else {
        0
    }
    &&& gap.len() < object_header::prefix_v2(ordered)
    &&& parts_bytes(ms, 0, ordered, os, ls).len() + gap.len() < bytes::pow256(
        size_bytes(flags) as nat,
    )
    &&& places::stands(d, p, header_bytes(flags, times, limits, ms, gap, os, ls))
    &&& all_placed(d, ms, 0, ordered, os, ls)
    &&& chunks_below(ms, ms.len() as int) <= 256
}

/// The messages of a header of version 2 are those that stand in it, and then those of the chunks
/// that it refers to, with the chunks that these refer to in turn, the last one first. Only NIL
/// messages and continuation messages are left out.
#[verifier::spinoff_prover]
#[verifier::rlimit(60)]
pub proof fn law_header_is_read_back(
    d: Seq<u8>,
    p: int,
    flags: u8,
    times: Seq<u32>,
    limits: Seq<u8>,
    ms: Seq<Part>,
    gap: Seq<u8>,
    os: u8,
    ls: u8,
)
    requires
        header_stands(d, p, flags, times, limits, ms, gap, os, ls),
    ensures
        ({
            let ordered = flags / 4 % 2 == 1;
            let timed = flags / 32 % 2 == 1;
            let n = ms.len() as int;
            object_header::header_at(d, p, os, ls) == Ok::<ObjectHeaderModel, ErrorModel>(
                ObjectHeaderModel {
                    version: 2,
                    messages: own(ms, n, ordered, os, ls) + below(ms, n, ordered, os, ls),
                    reference_count: None,
                    flags,
                    access_time: time(timed, times, 0),
                    modification_time: time(timed, times, 1),
                    change_time: time(timed, times, 2),
                    birth_time: time(timed, times, 3),
                },
            )
        }),
{
    let ordered = flags / 4 % 2 == 1;
    let s = lemma_layout(d, p, flags, times, limits, ms, gap, os, ls);
    let width = size_bytes(flags);
    let size = parts_bytes(ms, 0, ordered, os, ls).len() + gap.len();
    let start = s + width;
    lemma_messages(d, start, start + size, ms, ordered, os, ls);
    assert(object_header::size_width((flags % 4) as u8) == width);
    assert(object_header::header_v2_from(d, p, s, os, ls) is Ok);
    assert(object_header::header_v2_at(d, p, os, ls) == object_header::header_v2_from(
        d,
        p,
        s,
        os,
        ls,
    ));
}

/// The parts of a header, and the place `s` of the size of its messages.
#[verifier::spinoff_prover]
#[verifier::rlimit(60)]
proof fn lemma_layout(
    d: Seq<u8>,
    p: int,
    flags: u8,
    times: Seq<u32>,
    limits: Seq<u8>,
    ms: Seq<Part>,
    gap: Seq<u8>,
    os: u8,
    ls: u8,
) -> (s: int)
    requires
        header_stands(d, p, flags, times, limits, ms, gap, os, ls),
    ensures
        ({
            let ordered = flags / 4 % 2 == 1;
            let timed = flags / 32 % 2 == 1;
            let bounded = flags / 16 % 2 == 1;
            let all = parts_bytes(ms, 0, ordered, os, ls);
            let width = size_bytes(flags);
            let end = s + width + all.len() + gap.len();
            &&& 0 <= p
            &&& bytes::has_tag(d, p, object_header::ohdr())
            &&& d[p + 4] == 2
            &&& d[p + 5] == flags
            &&& s == p + 6 + (if timed {
                16int
            } else {
                0
            }) + (if bounded {
                4int
            } else {
                0
            })
            &&& timed ==> {
                &&& bytes::u32_at(d, p + 6) == times[0]
                &&& bytes::u32_at(d, p + 10) == times[1]
                &&& bytes::u32_at(d, p + 14) == times[2]
                &&& bytes::u32_at(d, p + 18) == times[3]
            }
            &&& crate::utils::uint_at(d, s, width as u8) == all.len() + gap.len()
            &&& end + 4 <= d.len()
            &&& places::stands(d, s + width, all)
            &&& crate::utils::stored_checksum(d, p, end) == Ok::<(), ErrorModel>(())
        }),
{
    let ordered = flags / 4 % 2 == 1;
    let tag = seq![0x4Fu8, 0x48, 0x44, 0x52];
    let front = seq![2u8, flags];
    let t = times_bytes(flags, times);
    let all = parts_bytes(ms, 0, ordered, os, ls);
    let body = all + gap;
    let width = size_bytes(flags);
    let size = places::field(body.len() as int, width);
    let b = tag + (front + (t + (limits + (size + body))));
    lemma_sealed(d, p, b);
    places::lemma_field_len(body.len() as int, width);
    places::lemma_parts(d, p, tag, front + (t + (limits + (size + body))));
    places::lemma_tag(d, p, tag);
    assert(tag == object_header::ohdr());
    places::lemma_parts(d, p + 4, front, t + (limits + (size + body)));
    places::lemma_byte(d, p + 4, front, 0);
    places::lemma_byte(d, p + 4, front, 1);
    places::lemma_parts(d, p + 6, t, limits + (size + body));
    lemma_times(d, p + 6, flags, times);
    let q = p + 6 + t.len();
    places::lemma_parts(d, q, limits, size + body);
    let s = q + limits.len();
    places::lemma_parts(d, s, size, body);
    places::lemma_word(d, s, body.len() as int, width as u8);
    places::lemma_parts(d, s + width, all, gap);
    s
}

/// One of the times, if there are any.
pub open spec fn time(timed: bool, times: Seq<u32>, i: int) -> Option<u32> {
    if timed {
        Some(times[i])
    } else {
        None
    }
}

proof fn lemma_times(d: Seq<u8>, p: int, flags: u8, times: Seq<u32>)
    requires
        places::stands(d, p, times_bytes(flags, times)),
    ensures
        flags / 32 % 2 == 1 ==> {
            &&& times_bytes(flags, times).len() == 16
            &&& crate::bytes::u32_at(d, p) == times[0]
            &&& crate::bytes::u32_at(d, p + 4) == times[1]
            &&& crate::bytes::u32_at(d, p + 8) == times[2]
            &&& crate::bytes::u32_at(d, p + 12) == times[3]
        },
        flags / 32 % 2 != 1 ==> times_bytes(flags, times).len() == 0,
{
    if flags / 32 % 2 == 1 {
        let a = places::field(times[0] as int, 4);
        let b = places::field(times[1] as int, 4);
        let c = places::field(times[2] as int, 4);
        let e = places::field(times[3] as int, 4);
        places::lemma_field_len(times[0] as int, 4);
        places::lemma_field_len(times[1] as int, 4);
        places::lemma_field_len(times[2] as int, 4);
        places::lemma_field_len(times[3] as int, 4);
        places::lemma_parts(d, p, a, b + (c + e));
        places::lemma_parts(d, p + 4, b, c + e);
        places::lemma_parts(d, p + 8, c, e);
        places::lemma_u32(d, p, times[0] as int);
        places::lemma_u32(d, p + 4, times[1] as int);
        places::lemma_u32(d, p + 8, times[2] as int);
        places::lemma_u32(d, p + 12, times[3] as int);
    }
}

proof fn lemma_messages(
    d: Seq<u8>,
    start: int,
    end: int,
    ms: Seq<Part>,
    ordered: bool,
    os: u8,
    ls: u8,
)
    requires
        crate::utils::is_width(os),
        crate::utils::is_width(ls),
        d.len() <= usize::MAX,
        places::stands(d, start, parts_bytes(ms, 0, ordered, os, ls)),
        0 <= end - (start + parts_bytes(ms, 0, ordered, os, ls).len())
            < object_header::prefix_v2(ordered),
        all_placed(d, ms, 0, ordered, os, ls),
        chunks_below(ms, ms.len() as int) <= 256,
    ensures
        object_header::all_messages_v2(d, start, end, ordered, os, ls) == Ok::<
            Seq<HeaderMessageModel>,
            ErrorModel,
        >(
            own(ms, ms.len() as int, ordered, os, ls) + below(
                ms,
                ms.len() as int,
                ordered,
                os,
                ls,
            ),
        ),
{
    let n = ms.len() as int;
    let none = Seq::<HeaderMessageModel>::empty();
    let nothing = Seq::<(usize, usize)>::empty();
    assert(none + own(ms, 0, ordered, os, ls) =~= none);
    assert(nothing + pending(ms, 0, ordered, os, ls) =~= nothing);
    lemma_parts_read(d, start, end, ms, 0, ordered, os, ls, none, nothing);
    assert(none + own(ms, n, ordered, os, ls) =~= own(ms, n, ordered, os, ls));
    lemma_followed(d, ms, n, ordered, os, ls, 256, own(ms, n, ordered, os, ls), nothing);
}

} // verus!

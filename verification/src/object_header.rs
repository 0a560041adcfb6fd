//! HDF5 object headers (v1 and v2).

use vstd::prelude::*;
use vstd::slice::{slice_subrange, slice_to_vec};
use crate::bytes::{byte_len, order_u16, order_u32, tag_at};
use crate::error::{ErrorModel, FormatError};
use crate::message_type::MessageType;
use crate::utils::{checksum_mismatch, ensure_len, read_offset};

verus! {

broadcast use vstd::std_specs::control_flow::group_control_flow_axioms;

/// A single parsed header message.
#[derive(Debug, Clone)]
pub struct HeaderMessage {
    /// The message type.
    pub msg_type: MessageType,
    /// Size of the message data in bytes.
    pub size: usize,
    /// Message flags byte.
    pub flags: u8,
    /// Creation order (v2 only, when tracking is enabled).
    pub creation_order: Option<u16>,
    /// Raw message data bytes.
    pub data: Vec<u8>,
}

/// Parsed HDF5 object header.
#[derive(Debug, Clone)]
pub struct ObjectHeader {
    /// Header version (1 or 2).
    pub version: u8,
    /// All non-NIL messages collected from all chunks.
    pub messages: Vec<HeaderMessage>,
    /// Object reference count (v1 only).
    pub reference_count: Option<u32>,
    /// Object header flags (v2 only; 0 for v1).
    pub flags: u8,
    /// Access time (v2, when flags bit 5 set).
    pub access_time: Option<u32>,
    /// Modification time (v2, when flags bit 5 set).
    pub modification_time: Option<u32>,
    /// Change time (v2, when flags bit 5 set).
    pub change_time: Option<u32>,
    /// Birth time (v2, when flags bit 5 set).
    pub birth_time: Option<u32>,
}

/// The content of a [`HeaderMessage`].
pub struct HeaderMessageModel {
    pub msg_type: MessageType,
    pub size: usize,
    pub flags: u8,
    pub creation_order: Option<u16>,
    pub data: Seq<u8>,
}

/// The content of an [`ObjectHeader`].
pub struct ObjectHeaderModel {
    pub version: u8,
    pub messages: Seq<HeaderMessageModel>,
    pub reference_count: Option<u32>,
    pub flags: u8,
    pub access_time: Option<u32>,
    pub modification_time: Option<u32>,
    pub change_time: Option<u32>,
    pub birth_time: Option<u32>,
}

impl DeepView for HeaderMessage {
    type V = HeaderMessageModel;

    open spec fn deep_view(&self) -> HeaderMessageModel {
        HeaderMessageModel {
            msg_type: self.msg_type,
            size: self.size,
            flags: self.flags,
            creation_order: self.creation_order,
            data: self.data@,
        }
    }
}

impl DeepView for ObjectHeader {
    type V = ObjectHeaderModel;

    open spec fn deep_view(&self) -> ObjectHeaderModel {
        ObjectHeaderModel {
            version: self.version,
            messages: self.messages.deep_view(),
            reference_count: self.reference_count,
            flags: self.flags,
            access_time: self.access_time,
            modification_time: self.modification_time,
            change_time: self.change_time,
            birth_time: self.birth_time,
        }
    }
}

/// The messages of a header, or the error.
pub type Messages = Result<Seq<HeaderMessageModel>, ErrorModel>;

/// The tag of a version 2 object header.
pub open spec fn ohdr() -> Seq<u8> {
    seq![0x4F, 0x48, 0x44, 0x52]
}

/// The tag of a version 2 continuation chunk.
pub open spec fn ochk() -> Seq<u8> {
    seq![0x4F, 0x43, 0x48, 0x4B]
}

/// The object header at `offset`.
pub open spec fn header_at(d: Seq<u8>, offset: int, os: u8, ls: u8) -> Result<
    ObjectHeaderModel,
    ErrorModel,
> {
    if !crate::utils::fits(d, offset, 4) {
        Err(crate::utils::eof(d, offset, 4))
    } else if crate::bytes::has_tag(d, offset, ohdr()) {
        header_v2_at(d, offset, os, ls)
    } else {
        header_v1_at(d, offset, os, ls)
    }
}

/// Whether a message of an unknown type has to be understood.
pub open spec fn is_refused(t: MessageType, flags: u8) -> bool {
    t is Unknown && flags / 8 % 2 == 1
}

/// `done` with the given message, unless it is a NIL message.
pub open spec fn collect(
    done: Seq<HeaderMessageModel>,
    m: HeaderMessageModel,
) -> Seq<HeaderMessageModel> {
    if m.msg_type == MessageType::Nil {
        done
    } else {
        done.push(m)
    }
}

/// The offset and the length that a continuation message refers to; none if it is too short.
pub open spec fn continuation_of(m: Seq<u8>, os: u8, ls: u8) -> Result<
    Option<(usize, usize)>,
    ErrorModel,
> {
    if m.len() < os + ls {
        Ok(None)
    } else {
        match crate::utils::offset_at(m, 0, os) {
            Err(e) => Err(e),
            Ok(offset) => match crate::utils::offset_at(m, os as int, ls) {
                Err(e) => Err(e),
                Ok(length) => Ok(Some((offset as usize, length as usize))),
            },
        }
    }
}

// ---- Version 1 ----

/// The header of version 1 at `offset`: 16 bytes, then the messages.
pub open spec fn header_v1_at(d: Seq<u8>, offset: int, os: u8, ls: u8) -> Result<
    ObjectHeaderModel,
    ErrorModel,
> {
    if !crate::utils::fits(d, offset, 12) {
        Err(crate::utils::eof(d, offset, 12))
    } else if d[offset] != 1 {
        Err(ErrorModel::Plain(FormatError::InvalidObjectHeaderVersion(d[offset])))
    } else {
        let start = offset + 16;
        let n = crate::bytes::u32_at(d, offset + 8) as int;
        if start > usize::MAX {
            Err(crate::utils::eof(d, offset, 16))
        } else if !crate::utils::fits(d, start, n) {
            Err(crate::utils::eof(d, start, n))
        } else {
            match messages_v1_at(
                d,
                start,
                start + n,
                crate::bytes::u16_at(d, offset + 2) as nat,
                os,
                ls,
                Seq::empty(),
            ) {
                Err(e) => Err(e),
                Ok(messages) => Ok(
                    ObjectHeaderModel {
                        version: 1,
                        messages,
                        reference_count: Some(crate::bytes::u32_at(d, offset + 4)),
                        flags: 0,
                        access_time: None,
                        modification_time: None,
                        change_time: None,
                        birth_time: None,
                    },
                ),
            }
        }
    }
}

/// The version 1 message whose eight-byte prefix stands at `pos`.
pub open spec fn message_v1_at(d: Seq<u8>, pos: int) -> HeaderMessageModel {
    let size = crate::bytes::u16_at(d, pos + 2) as usize;
    HeaderMessageModel {
        msg_type: crate::message_type::type_of_id(crate::bytes::u16_at(d, pos)),
        size,
        flags: d[pos + 4],
        creation_order: None,
        data: d.subrange(pos + 8, pos + 8 + size),
    }
}

/// At most `count` messages from `pos` on, after those in `done`; each starts before `end` with
/// its whole prefix. What a continuation message refers to follows it.
pub open spec fn messages_v1_at(
    d: Seq<u8>,
    pos: int,
    end: int,
    count: nat,
    os: u8,
    ls: u8,
    done: Seq<HeaderMessageModel>,
) -> Messages
    decreases count,
{
    if count == 0 || pos + 8 > end {
        Ok(done)
    } else {
        let m = message_v1_at(d, pos);
        if !crate::utils::fits(d, pos + 8, m.size as int) {
            Err(crate::utils::eof(d, pos + 8, m.size as int))
        } else if is_refused(m.msg_type, m.flags) {
            Err(ErrorModel::Plain(FormatError::UnsupportedMessage(m.msg_type->Unknown_0)))
        } else {
            match followed_v1(d, m, os, ls, 33, collect(done, m)) {
                Err(e) => Err(e),
                Ok(all) => messages_v1_at(
                    d,
                    pos + 8 + m.size,
                    end,
                    (count - 1) as nat,
                    os,
                    ls,
                    all,
                ),
            }
        }
    }
}

/// `done` and what the message `m` refers to, if it is a continuation message; `depth` bounds the
/// nesting of continuations.
pub open spec fn followed_v1(
    d: Seq<u8>,
    m: HeaderMessageModel,
    os: u8,
    ls: u8,
    depth: nat,
    done: Seq<HeaderMessageModel>,
) -> Messages
    decreases depth, 0int, 0int,
{
    if m.msg_type != MessageType::ObjectHeaderContinuation || depth == 0 {
        Ok(done)
    } else {
        match continuation_of(m.data, os, ls) {
            Err(e) => Err(e),
            Ok(None) => Ok(done),
            Ok(Some((offset, length))) => match continuation_v1_at(
                d,
                offset as int,
                length as int,
                os,
                ls,
                (depth - 1) as nat,
            ) {
                Err(e) => Err(e),
                Ok(more) => Ok(done + more),
            },
        }
    }
}

/// The messages of the continuation block of `length` bytes at `offset`.
pub open spec fn continuation_v1_at(
    d: Seq<u8>,
    offset: int,
    length: int,
    os: u8,
    ls: u8,
    depth: nat,
) -> Messages
    decreases depth, 2int, 0int,
{
    if depth == 0 {
        Err(ErrorModel::Plain(FormatError::NestingDepthExceeded))
    } else if !crate::utils::fits(d, offset, length) {
        Err(crate::utils::eof(d, offset, length))
    } else {
        block_v1_at(d, offset, offset + length, os, ls, depth, Seq::empty())
    }
}

/// The messages that lie whole between `pos` and `end`, after those in `done`.
pub open spec fn block_v1_at(
    d: Seq<u8>,
    pos: int,
    end: int,
    os: u8,
    ls: u8,
    depth: nat,
    done: Seq<HeaderMessageModel>,
) -> Messages
    decreases depth, 1int, end - pos,
{
    let m = message_v1_at(d, pos);
    if pos + 8 > end || pos + 8 + m.size > end {
        Ok(done)
    } else if is_refused(m.msg_type, m.flags) {
        Err(ErrorModel::Plain(FormatError::UnsupportedMessage(m.msg_type->Unknown_0)))
    } else {
        match followed_v1(d, m, os, ls, depth, collect(done, m)) {
            Err(e) => Err(e),
            Ok(all) => block_v1_at(d, pos + 8 + m.size, end, os, ls, depth, all),
        }
    }
}

// ---- Version 2 ----

/// The header of version 2 at `offset`: version, flags, optional times and thresholds, the size
/// of the first chunk, its messages and their checksum.
pub open spec fn header_v2_at(d: Seq<u8>, offset: int, os: u8, ls: u8) -> Result<
    ObjectHeaderModel,
    ErrorModel,
> {
    if !crate::utils::fits(d, offset, 6) {
        Err(crate::utils::eof(d, offset, 6))
    } else if d[offset + 4] != 2 {
        Err(ErrorModel::Plain(FormatError::InvalidObjectHeaderVersion(d[offset + 4])))
    } else {
        let flags = d[offset + 5];
        let timed = flags / 32 % 2 == 1;
        let bounded = flags / 16 % 2 == 1;
        let p = offset + 6;
        let q = if timed {
            p + 16
        } else {
            p
        };
        let s = if bounded {
            q + 4
        } else {
            q
        };
        if timed && !crate::utils::fits(d, p, 16) {
            Err(crate::utils::eof(d, p, 16))
        } else if bounded && !crate::utils::fits(d, q, 4) {
            Err(crate::utils::eof(d, q, 4))
        } else {
            header_v2_from(d, offset, s, os, ls)
        }
    }
}

/// The rest of the header of version 2 at `offset`, from the size of its first chunk at `s` on.
pub open spec fn header_v2_from(d: Seq<u8>, offset: int, s: int, os: u8, ls: u8) -> Result<
    ObjectHeaderModel,
    ErrorModel,
> {
    let flags = d[offset + 5];
    let timed = flags / 32 % 2 == 1;
    let width = size_width(flags % 4);
    if !crate::utils::fits(d, s, width as int) {
        Err(crate::utils::eof(d, s, width as int))
    } else {
        let start = s + width;
        let size = (crate::utils::uint_at(d, s, width) as usize) as int;
        let end = start + size;
        if end > usize::MAX {
            Err(crate::utils::eof(d, start, size))
        } else if !crate::utils::fits(d, end, 4) {
            Err(crate::utils::eof(d, end, 4))
        } else {
            match crate::utils::stored_checksum(d, offset, end) {
                Err(e) => Err(e),
                Ok(()) => match all_messages_v2(d, start, end, flags / 4 % 2 == 1, os, ls) {
                    Err(e) => Err(e),
                    Ok(messages) => Ok(
                        ObjectHeaderModel {
                            version: 2,
                            messages,
                            reference_count: None,
                            flags,
                            access_time: time_at(d, timed, offset + 6),
                            modification_time: time_at(d, timed, offset + 10),
                            change_time: time_at(d, timed, offset + 14),
                            birth_time: time_at(d, timed, offset + 18),
                        },
                    ),
                },
            }
        }
    }
}

/// The width in bytes that the two low bits of the flags select.
pub open spec fn size_width(bits: u8) -> u8 {
    if bits == 0 {
        1
    } else if bits == 1 {
        2
    } else if bits == 2 {
        4
    } else {
        8
    }
}

/// The time stamp at `p`, if there are any.
pub open spec fn time_at(d: Seq<u8>, timed: bool, p: int) -> Option<u32> {
    if timed {
        Some(crate::bytes::u32_at(d, p))
    } else {
        None
    }
}

/// The messages of the chunk between `start` and `end` and of all continuation chunks.
pub open spec fn all_messages_v2(
    d: Seq<u8>,
    start: int,
    end: int,
    ordered: bool,
    os: u8,
    ls: u8,
) -> Messages {
    match chunk_v2_at(d, start, end, ordered, os, ls, Seq::empty(), Seq::empty()) {
        Err(e) => Err(e),
        Ok((messages, pending)) => followed_v2(d, ordered, os, ls, 256, messages, pending),
    }
}

/// The length of a version 2 message prefix.
pub open spec fn prefix_v2(ordered: bool) -> int {
    if ordered {
        6
    } else {
        4
    }
}

/// The version 2 message whose prefix stands at `pos`.
pub open spec fn message_v2_at(d: Seq<u8>, pos: int, ordered: bool) -> HeaderMessageModel {
    let size = crate::bytes::u16_at(d, pos + 1) as usize;
    let p = pos + prefix_v2(ordered);
    HeaderMessageModel {
        msg_type: crate::message_type::type_of_id(d[pos] as u16),
        size,
        flags: d[pos + 3],
        creation_order: if ordered {
            Some(crate::bytes::u16_at(d, pos + 4))
        } else {
            None
        },
        data: d.subrange(p, p + size),
    }
}

/// The messages that lie whole between `pos` and `end`, after those in `done`, and the
/// continuations that they refer to, after those in `pending`.
pub open spec fn chunk_v2_at(
    d: Seq<u8>,
    pos: int,
    end: int,
    ordered: bool,
    os: u8,
    ls: u8,
    done: Seq<HeaderMessageModel>,
    pending: Seq<(usize, usize)>,
) -> Result<(Seq<HeaderMessageModel>, Seq<(usize, usize)>), ErrorModel>
    decreases end - pos,
{
    let m = message_v2_at(d, pos, ordered);
    let p = pos + prefix_v2(ordered);
    if p > end || p + m.size > end {
        Ok((done, pending))
    } else if is_refused(m.msg_type, m.flags) {
        Err(ErrorModel::Plain(FormatError::UnsupportedMessage(m.msg_type->Unknown_0)))
    } else if m.msg_type == MessageType::ObjectHeaderContinuation {
        match continuation_of(m.data, os, ls) {
            Err(e) => Err(e),
            Ok(None) => chunk_v2_at(d, p + m.size, end, ordered, os, ls, done, pending),
            Ok(Some(block)) => chunk_v2_at(
                d,
                p + m.size,
                end,
                ordered,
                os,
                ls,
                done,
                pending.push(block),
            ),
        }
    } else {
        chunk_v2_at(d, p + m.size, end, ordered, os, ls, collect(done, m), pending)
    }
}

/// `done` and the messages of the pending continuations, the last one first; at most `left`
/// continuations are followed.
pub open spec fn followed_v2(
    d: Seq<u8>,
    ordered: bool,
    os: u8,
    ls: u8,
    left: nat,
    done: Seq<HeaderMessageModel>,
    pending: Seq<(usize, usize)>,
) -> Messages
    decreases left,
{
    if pending.len() == 0 {
        Ok(done)
    } else if left == 0 {
        Err(ErrorModel::Plain(FormatError::NestingDepthExceeded))
    } else {
        match continuation_v2_at(
            d,
            pending.last().0 as int,
            pending.last().1 as int,
            ordered,
            os,
            ls,
            done,
            pending.drop_last(),
        ) {
            Err(e) => Err(e),
            Ok((all, rest)) => followed_v2(d, ordered, os, ls, (left - 1) as nat, all, rest),
        }
    }
}

/// The messages of the continuation chunk of `length` bytes at `offset`: a tag, the messages and
/// their checksum.
pub open spec fn continuation_v2_at(
    d: Seq<u8>,
    offset: int,
    length: int,
    ordered: bool,
    os: u8,
    ls: u8,
    done: Seq<HeaderMessageModel>,
    pending: Seq<(usize, usize)>,
) -> Result<(Seq<HeaderMessageModel>, Seq<(usize, usize)>), ErrorModel> {
    let sum = offset + length - 4;
    if !crate::utils::fits(d, offset, length) {
        Err(crate::utils::eof(d, offset, length))
    } else if length < 8 {
        Err(
            ErrorModel::Plain(
                FormatError::UnexpectedEof { expected: 8, available: length as usize },
            ),
        )
    } else if !crate::bytes::has_tag(d, offset, ochk()) {
        Err(ErrorModel::Plain(FormatError::InvalidObjectHeaderSignature))
    } else {
        match crate::utils::stored_checksum(d, offset, sum) {
            Err(e) => Err(e),
            Ok(()) => chunk_v2_at(d, offset + 4, sum, ordered, os, ls, done, pending),
        }
    }
}

// ---- Parsing ----

fn extend_messages(messages: &mut Vec<HeaderMessage>, more: Vec<HeaderMessage>)
    ensures
        final(messages).deep_view() == old(messages).deep_view() + more.deep_view(),
{
    let mut rest = more;
    messages.append(&mut rest);
    assert(messages.deep_view() =~= old(messages).deep_view() + more.deep_view());
}

fn read_continuation(data: &[u8], offset_size: u8, length_size: u8) -> (r: Result<
    Option<(usize, usize)>,
    FormatError,
>)
    ensures
        match r {
            Ok(c) => continuation_of(data@, offset_size, length_size) == Ok::<
                Option<(usize, usize)>,
                ErrorModel,
            >(c),
            Err(e) => continuation_of(data@, offset_size, length_size) == Err::<
                Option<(usize, usize)>,
                ErrorModel,
            >(e.deep_view()),
        },
{
    if data.len() < offset_size as usize + length_size as usize {
        return Ok(None);
    }
    let offset: usize = read_offset(data, 0, offset_size)? as usize;
    let length: usize = read_offset(data, offset_size as usize, length_size)? as usize;
    Ok(Some((offset, length)))
}

impl ObjectHeader {
    /// Parse an object header at the given offset in the data buffer.
    ///
    /// `offset_size` and `length_size` come from the superblock.
    pub fn parse(data: &[u8], offset: usize, offset_size: u8, length_size: u8) -> (r: Result<
        ObjectHeader,
        FormatError,
    >)
        ensures
            crate::error::outcome(r) == header_at(data@, offset as int, offset_size, length_size),
    {
        ensure_len(data, offset, 4)?;
        if tag_at(data, offset, 0x4F, 0x48, 0x44, 0x52) {
            ObjectHeader::parse_v2(data, offset, offset_size, length_size)
        } else {
            ObjectHeader::parse_v1(data, offset, offset_size, length_size)
        }
    }

    fn parse_v1(data: &[u8], offset: usize, offset_size: u8, length_size: u8) -> (r: Result<
        ObjectHeader,
        FormatError,
    >)
        ensures
            crate::error::outcome(r) == header_v1_at(
                data@,
                offset as int,
                offset_size,
                length_size,
            ),
    {
        let len: usize = byte_len(data);
        ensure_len(data, offset, 12)?;
        let version = data[offset];
        if version != 1 {
            return Err(FormatError::InvalidObjectHeaderVersion(version));
        }
        let num_messages = order_u16(slice_subrange(data, offset + 2, offset + 4));
        let reference_count = order_u32(slice_subrange(data, offset + 4, offset + 8));
        let header_data_size: usize = order_u32(
            slice_subrange(data, offset + 8, offset + 12),
        ) as usize;
        // The 12-byte prefix is padded to 16 bytes.
        let msg_start: usize = offset + 16;
        ensure_len(data, msg_start, header_data_size)?;
        let msg_end: usize = msg_start + header_data_size;
        let mut messages: Vec<HeaderMessage> = Vec::new();
        let mut pos: usize = msg_start;
        let mut left: u16 = num_messages;
        assert(messages.deep_view() =~= Seq::<HeaderMessageModel>::empty());
        let ghost goal = messages_v1_at(
            data@,
            msg_start as int,
            msg_end as int,
            num_messages as nat,
            offset_size,
            length_size,
            Seq::empty(),
        );
        while left > 0 && pos <= msg_end && msg_end - pos >= 8
            invariant
                len == data@.len(),
                len <= isize::MAX,
                pos <= len,
                msg_end <= len,
                crate::utils::fits(data@, offset as int, 12),
                data@[offset as int] == 1,
                msg_start == offset + 16,
                msg_end == msg_start + crate::bytes::u32_at(data@, offset + 8),
                num_messages == crate::bytes::u16_at(data@, offset + 2),
                goal == messages_v1_at(
                    data@,
                    msg_start as int,
                    msg_end as int,
                    num_messages as nat,
                    offset_size,
                    length_size,
                    Seq::empty(),
                ),
                goal == messages_v1_at(
                    data@,
                    pos as int,
                    msg_end as int,
                    left as nat,
                    offset_size,
                    length_size,
                    messages.deep_view(),
                ),
            decreases left,
        {
            let ghost before = messages.deep_view();
            let ghost m = message_v1_at(data@, pos as int);
            let msg_type_raw = order_u16(slice_subrange(data, pos, pos + 2));
            let msg_data_size: usize = order_u16(slice_subrange(data, pos + 2, pos + 4)) as usize;
            let msg_flags = data[pos + 4];
            pos += 8;
            ensure_len(data, pos, msg_data_size)?;
            let msg_type = MessageType::from_u16(msg_type_raw);
            if let MessageType::Unknown(id) = msg_type {
                if msg_flags / 8 % 2 == 1 {
                    return Err(FormatError::UnsupportedMessage(id));
                }
            }
            let msg_data = slice_to_vec(slice_subrange(data, pos, pos + msg_data_size));
            pos += msg_data_size;
            let continuation = if msg_type == MessageType::ObjectHeaderContinuation {
                read_continuation(msg_data.as_slice(), offset_size, length_size)?
            } else {
                None
            };
            if msg_type != MessageType::Nil {
                messages.push(
                    HeaderMessage {
                        msg_type,
                        size: msg_data_size,
                        flags: msg_flags,
                        creation_order: None,
                        data: msg_data,
                    },
                );
                assert(messages.deep_view() =~= before.push(m));
            }
            assert(messages.deep_view() == collect(before, m));
            if let Some((cont_offset, cont_length)) = continuation {
                // v1: just raw messages, no signature
                let cont_msgs = ObjectHeader::parse_v1_continuation(
                    data,
                    cont_offset,
                    cont_length,
                    offset_size,
                    length_size,
                    32,
                )?;
                extend_messages(&mut messages, cont_msgs);
            }
            left -= 1;
        }
        Ok(
            ObjectHeader {
                version: 1,
                messages,
                reference_count: Some(reference_count),
                flags: 0,
                access_time: None,
                modification_time: None,
                change_time: None,
                birth_time: None,
            },
        )
    }

    fn parse_v1_continuation(
        data: &[u8],
        offset: usize,
        length: usize,
        offset_size: u8,
        length_size: u8,
        depth_remaining: u16,
    ) -> (r: Result<Vec<HeaderMessage>, FormatError>)
        ensures
            crate::error::outcome(r) == continuation_v1_at(
                data@,
                offset as int,
                length as int,
                offset_size,
                length_size,
                depth_remaining as nat,
            ),
        decreases depth_remaining,
    {
        if depth_remaining == 0 {
            return Err(FormatError::NestingDepthExceeded);
        }
        let len: usize = byte_len(data);
        ensure_len(data, offset, length)?;
        let mut messages: Vec<HeaderMessage> = Vec::new();
        let mut pos: usize = offset;
        let end: usize = offset + length;
        assert(messages.deep_view() =~= Seq::<HeaderMessageModel>::empty());
        let ghost goal = block_v1_at(
            data@,
            offset as int,
            end as int,
            offset_size,
            length_size,
            depth_remaining as nat,
            Seq::empty(),
        );
        while end - pos >= 8
            invariant
                len == data@.len(),
                len <= isize::MAX,
                pos <= end <= len,
                end == offset + length,
                depth_remaining > 0,
                goal == block_v1_at(
                    data@,
                    offset as int,
                    end as int,
                    offset_size,
                    length_size,
                    depth_remaining as nat,
                    Seq::empty(),
                ),
                goal == block_v1_at(
                    data@,
                    pos as int,
                    end as int,
                    offset_size,
                    length_size,
                    depth_remaining as nat,
                    messages.deep_view(),
                ),
            decreases end - pos,
        {
            let ghost before = messages.deep_view();
            let ghost m = message_v1_at(data@, pos as int);
            let msg_type_raw = order_u16(slice_subrange(data, pos, pos + 2));
            let msg_data_size: usize = order_u16(slice_subrange(data, pos + 2, pos + 4)) as usize;
            let msg_flags = data[pos + 4];
            if end - pos - 8 < msg_data_size {
                return Ok(messages);
            }
            pos += 8;
            let msg_type = MessageType::from_u16(msg_type_raw);
            if let MessageType::Unknown(id) = msg_type {
                if msg_flags / 8 % 2 == 1 {
                    return Err(FormatError::UnsupportedMessage(id));
                }
            }
            let msg_data = slice_to_vec(slice_subrange(data, pos, pos + msg_data_size));
            pos += msg_data_size;
            assert(m.data == msg_data@);
            assert(goal == match followed_v1(
                data@,
                m,
                offset_size,
                length_size,
                depth_remaining as nat,
                collect(before, m),
            ) {
                Err(e) => Err(e),
                Ok(all) => block_v1_at(
                    data@,
                    pos as int,
                    end as int,
                    offset_size,
                    length_size,
                    depth_remaining as nat,
                    all,
                ),
            });
            let continuation = if msg_type == MessageType::ObjectHeaderContinuation {
                read_continuation(msg_data.as_slice(), offset_size, length_size)?
            } else {
                None
            };
            if msg_type != MessageType::Nil {
                messages.push(
                    HeaderMessage {
                        msg_type,
                        size: msg_data_size,
                        flags: msg_flags,
                        creation_order: None,
                        data: msg_data,
                    },
                );
                assert(messages.deep_view() =~= before.push(m));
            }
            assert(messages.deep_view() == collect(before, m));
            if let Some((cont_offset, cont_length)) = continuation {
                let cont_msgs = ObjectHeader::parse_v1_continuation(
                    data,
                    cont_offset,
                    cont_length,
                    offset_size,
                    length_size,
                    depth_remaining - 1,
                )?;
                extend_messages(&mut messages, cont_msgs);
            }
        }
        Ok(messages)
    }

    fn parse_v2(data: &[u8], offset: usize, offset_size: u8, length_size: u8) -> (r: Result<
        ObjectHeader,
        FormatError,
    >)
        ensures
            crate::error::outcome(r) == header_v2_at(
                data@,
                offset as int,
                offset_size,
                length_size,
            ),
    {
        let _len: usize = byte_len(data);
        ensure_len(data, offset, 6)?;
        let version = data[offset + 4];
        if version != 2 {
            return Err(FormatError::InvalidObjectHeaderVersion(version));
        }
        let flags = data[offset + 5];
        let mut pos: usize = offset + 6;
        // Optional timestamps (flags bit 5)
        if flags / 32 % 2 == 1 {
            ensure_len(data, pos, 16)?;
            pos += 16;
        }
        // Optional attribute storage thresholds (flags bit 4)
        if flags / 16 % 2 == 1 {
            ensure_len(data, pos, 4)?;
            pos += 4;
        }
        ObjectHeader::parse_v2_chunk0(data, offset, pos, offset_size, length_size)
    }

    /// Parse the rest of a version 2 header from the size of its first chunk on.
    fn parse_v2_chunk0(
        data: &[u8],
        offset: usize,
        size_pos: usize,
        offset_size: u8,
        length_size: u8,
    ) -> (r: Result<ObjectHeader, FormatError>)
        requires
            offset + 6 <= size_pos <= data@.len(),
            data@[offset + 5] / 32 % 2 == 1 ==> offset + 22 <= data@.len(),
        ensures
            crate::error::outcome(r) == header_v2_from(
                data@,
                offset as int,
                size_pos as int,
                offset_size,
                length_size,
            ),
    {
        let len: usize = byte_len(data);
        let flags = data[offset + 5];
        let mut pos: usize = size_pos;
        // chunk0 size: width depends on flags bits 0-1
        let chunk_size_width: u8 = match flags % 4 {
            0 => 1,
            1 => 2,
            2 => 4,
            _ => 8,
        };
        ensure_len(data, pos, chunk_size_width as usize)?;
        let chunk0_size: usize = read_offset(data, pos, chunk_size_width)? as usize;
        pos += chunk_size_width as usize;
        let chunk0_msg_start: usize = pos;
        let chunk0_msg_end: usize = match pos.checked_add(chunk0_size) {
            Some(end) => end,
            None => {
                return Err(FormatError::UnexpectedEof { expected: usize::MAX, available: len });
            },
        };
        // Validate checksum: from OHDR signature through all messages (before checksum)
        ensure_len(data, chunk0_msg_end, 4)?;
        checksum_mismatch(data, offset, chunk0_msg_end)?;
        // Bit 2: attribute creation order tracked, messages have a creation order field
        let has_creation_order = flags / 4 % 2 == 1;
        let messages = ObjectHeader::parse_v2_all(
            data,
            chunk0_msg_start,
            chunk0_msg_end,
            has_creation_order,
            offset_size,
            length_size,
        )?;
        let timed = flags / 32 % 2 == 1;
        Ok(
            ObjectHeader {
                version: 2,
                messages,
                reference_count: None,
                flags,
                access_time: ObjectHeader::time(data, timed, offset, 6),
                modification_time: ObjectHeader::time(data, timed, offset, 10),
                change_time: ObjectHeader::time(data, timed, offset, 14),
                birth_time: ObjectHeader::time(data, timed, offset, 18),
            },
        )
    }

    /// The time stamp `skip` bytes after `pos`, if there are any.
    fn time(data: &[u8], timed: bool, pos: usize, skip: usize) -> (t: Option<u32>)
        requires
            timed ==> pos + skip + 4 <= data@.len(),
        ensures
            t == time_at(data@, timed, pos + skip),
    {
        if timed {
            assert(data.len() == data@.len());
            Some(order_u32(slice_subrange(data, pos + skip, pos + skip + 4)))
        } else {
            None
        }
    }

    /// Parse the messages of the first chunk and of all continuation chunks.
    fn parse_v2_all(
        data: &[u8],
        start: usize,
        end: usize,
        has_creation_order: bool,
        offset_size: u8,
        length_size: u8,
    ) -> (r: Result<Vec<HeaderMessage>, FormatError>)
        requires
            start <= end <= data@.len(),
        ensures
            crate::error::outcome(r) == all_messages_v2(
                data@,
                start as int,
                end as int,
                has_creation_order,
                offset_size,
                length_size,
            ),
    {
        let mut messages: Vec<HeaderMessage> = Vec::new();
        let mut continuations: Vec<(usize, usize)> = Vec::new();
        assert(messages.deep_view() =~= Seq::<HeaderMessageModel>::empty());
        ObjectHeader::parse_v2_messages(
            data,
            start,
            end,
            has_creation_order,
            offset_size,
            length_size,
            &mut messages,
            &mut continuations,
        )?;
        // Follow continuations (limit to prevent cycles in malformed data)
        let mut cont_remaining: u16 = 256;
        let ghost goal = all_messages_v2(
            data@,
            start as int,
            end as int,
            has_creation_order,
            offset_size,
            length_size,
        );
        while continuations.len() > 0
            invariant
                goal == all_messages_v2(
                    data@,
                    start as int,
                    end as int,
                    has_creation_order,
                    offset_size,
                    length_size,
                ),
                goal == followed_v2(
                    data@,
                    has_creation_order,
                    offset_size,
                    length_size,
                    cont_remaining as nat,
                    messages.deep_view(),
                    continuations@,
                ),
            decreases cont_remaining,
        {
            if cont_remaining == 0 {
                return Err(FormatError::NestingDepthExceeded);
            }
            cont_remaining -= 1;
            let (cont_offset, cont_length) = continuations.pop().unwrap();
            ObjectHeader::parse_v2_continuation(
                data,
                cont_offset,
                cont_length,
                has_creation_order,
                offset_size,
                length_size,
                &mut messages,
                &mut continuations,
            )?;
        }
        Ok(messages)
    }

    fn parse_v2_messages(
        data: &[u8],
        start: usize,
        end: usize,
        has_creation_order: bool,
        offset_size: u8,
        length_size: u8,
        messages: &mut Vec<HeaderMessage>,
        continuations: &mut Vec<(usize, usize)>,
    ) -> (r: Result<(), FormatError>)
        requires
            start <= end <= data@.len(),
        ensures
            ({
                let all = chunk_v2_at(
                    data@,
                    start as int,
                    end as int,
                    has_creation_order,
                    offset_size,
                    length_size,
                    old(messages).deep_view(),
                    old(continuations)@,
                );
                match r {
                    Ok(()) => all == Ok::<
                        (Seq<HeaderMessageModel>, Seq<(usize, usize)>),
                        ErrorModel,
                    >((final(messages).deep_view(), final(continuations)@)),
                    Err(e) => all == Err::<
                        (Seq<HeaderMessageModel>, Seq<(usize, usize)>),
                        ErrorModel,
                    >(e.deep_view()),
                }
            }),
    {
        let msg_header_size: usize = if has_creation_order {
            6
        } else {
            4
        };
        let mut pos: usize = start;
        let ghost goal = chunk_v2_at(
            data@,
            start as int,
            end as int,
            has_creation_order,
            offset_size,
            length_size,
            messages.deep_view(),
            continuations@,
        );
        while end - pos >= msg_header_size
            invariant
                pos <= end <= data@.len(),
                msg_header_size == prefix_v2(has_creation_order),
                goal == chunk_v2_at(
                    data@,
                    start as int,
                    end as int,
                    has_creation_order,
                    offset_size,
                    length_size,
                    old(messages).deep_view(),
                    old(continuations)@,
                ),
                goal == chunk_v2_at(
                    data@,
                    pos as int,
                    end as int,
                    has_creation_order,
                    offset_size,
                    length_size,
                    messages.deep_view(),
                    continuations@,
                ),
            decreases end - pos,
        {
            let ghost before = messages.deep_view();
            let ghost m = message_v2_at(data@, pos as int, has_creation_order);
            let msg_type_raw = data[pos] as u16;
            let msg_data_size: usize = order_u16(slice_subrange(data, pos + 1, pos + 3)) as usize;
            let msg_flags = data[pos + 3];
            let creation_order = if has_creation_order {
                Some(order_u16(slice_subrange(data, pos + 4, pos + 6)))
            } else {
                None
            };
            if end - pos - msg_header_size < msg_data_size {
                // Could be padding at end of chunk
                return Ok(());
            }
            pos += msg_header_size;
            let msg_type = MessageType::from_u16(msg_type_raw);
            if let MessageType::Unknown(id) = msg_type {
                if msg_flags / 8 % 2 == 1 {
                    return Err(FormatError::UnsupportedMessage(id));
                }
            }
            let msg_data = slice_to_vec(slice_subrange(data, pos, pos + msg_data_size));
            pos += msg_data_size;
            if msg_type == MessageType::ObjectHeaderContinuation {
                let continuation = read_continuation(
                    msg_data.as_slice(),
                    offset_size,
                    length_size,
                )?;
                if let Some(block) = continuation {
                    continuations.push(block);
                }
            } else if msg_type != MessageType::Nil {
                messages.push(
                    HeaderMessage {
                        msg_type,
                        size: msg_data_size,
                        flags: msg_flags,
                        creation_order,
                        data: msg_data,
                    },
                );
                assert(messages.deep_view() =~= before.push(m));
            }
        }
        Ok(())
    }

    fn parse_v2_continuation(
        data: &[u8],
        offset: usize,
        length: usize,
        has_creation_order: bool,
        offset_size: u8,
        length_size: u8,
        messages: &mut Vec<HeaderMessage>,
        continuations: &mut Vec<(usize, usize)>,
    ) -> (r: Result<(), FormatError>)
        ensures
            ({
                let all = continuation_v2_at(
                    data@,
                    offset as int,
                    length as int,
                    has_creation_order,
                    offset_size,
                    length_size,
                    old(messages).deep_view(),
                    old(continuations)@,
                );
                match r {
                    Ok(()) => all == Ok::<
                        (Seq<HeaderMessageModel>, Seq<(usize, usize)>),
                        ErrorModel,
                    >((final(messages).deep_view(), final(continuations)@)),
                    Err(e) => all == Err::<
                        (Seq<HeaderMessageModel>, Seq<(usize, usize)>),
                        ErrorModel,
                    >(e.deep_view()),
                }
            }),
    {
        // OCHK signature(4) + messages + checksum(4)
        let _len: usize = byte_len(data);
        ensure_len(data, offset, length)?;
        if length < 8 {
            return Err(FormatError::UnexpectedEof { expected: 8, available: length });
        }
        if !tag_at(data, offset, 0x4F, 0x43, 0x48, 0x4B) {
            return Err(FormatError::InvalidObjectHeaderSignature);
        }
        let msg_start: usize = offset + 4;
        let checksum_pos: usize = offset + (length - 4);
        checksum_mismatch(data, offset, checksum_pos)?;
        ObjectHeader::parse_v2_messages(
            data,
            msg_start,
            checksum_pos,
            has_creation_order,
            offset_size,
            length_size,
            messages,
            continuations,
        )
    }
}

// ---- Laws ----

/// Whether the messages are as a parser leaves them: none is a NIL message, each has the data that
/// its size says, and each has a creation order just where the header keeps one.
pub open spec fn are_kept(ms: Seq<HeaderMessageModel>, ordered: bool) -> bool {
    forall|i: int|
        0 <= i < ms.len() ==> (#[trigger] ms[i]).msg_type != MessageType::Nil && ms[i].data.len()
            == ms[i].size && (ms[i].creation_order is Some <==> ordered)
}

proof fn lemma_messages_v1(
    d: Seq<u8>,
    pos: int,
    end: int,
    count: nat,
    os: u8,
    ls: u8,
    done: Seq<HeaderMessageModel>,
)
    requires
        0 <= pos,
        are_kept(done, false),
    ensures
        messages_v1_at(d, pos, end, count, os, ls, done) matches Ok(all) ==> are_kept(all, false),
    decreases count,
{
    if count > 0 && pos + 8 <= end {
        let m = message_v1_at(d, pos);
        if crate::utils::fits(d, pos + 8, m.size as int) {
            lemma_followed_v1(d, m, os, ls, 33, collect(done, m));
            if let Ok(all) = followed_v1(d, m, os, ls, 33, collect(done, m)) {
                lemma_messages_v1(d, pos + 8 + m.size, end, (count - 1) as nat, os, ls, all);
            }
        }
    }
}

proof fn lemma_followed_v1(
    d: Seq<u8>,
    m: HeaderMessageModel,
    os: u8,
    ls: u8,
    depth: nat,
    done: Seq<HeaderMessageModel>,
)
    requires
        are_kept(done, false),
    ensures
        followed_v1(d, m, os, ls, depth, done) matches Ok(all) ==> are_kept(all, false),
    decreases depth, 0int, 0int,
{
    if m.msg_type == MessageType::ObjectHeaderContinuation && depth > 0 {
        if let Ok(Some((offset, length))) = continuation_of(m.data, os, ls) {
            let next = (depth - 1) as nat;
            if next > 0 && crate::utils::fits(d, offset as int, length as int) {
                lemma_block_v1(
                    d,
                    offset as int,
                    offset + length,
                    os,
                    ls,
                    next,
                    Seq::empty(),
                );
            }
        }
    }
}

proof fn lemma_block_v1(
    d: Seq<u8>,
    pos: int,
    end: int,
    os: u8,
    ls: u8,
    depth: nat,
    done: Seq<HeaderMessageModel>,
)
    requires
        0 <= pos,
        end <= d.len(),
        are_kept(done, false),
    ensures
        block_v1_at(d, pos, end, os, ls, depth, done) matches Ok(all) ==> are_kept(all, false),
    decreases depth, 1int, end - pos,
{
    let m = message_v1_at(d, pos);
    if pos + 8 <= end && pos + 8 + m.size <= end {
        lemma_followed_v1(d, m, os, ls, depth, collect(done, m));
        if let Ok(all) = followed_v1(d, m, os, ls, depth, collect(done, m)) {
            lemma_block_v1(d, pos + 8 + m.size, end, os, ls, depth, all);
        }
    }
}

proof fn lemma_chunk_v2(
    d: Seq<u8>,
    pos: int,
    end: int,
    ordered: bool,
    os: u8,
    ls: u8,
    done: Seq<HeaderMessageModel>,
    pending: Seq<(usize, usize)>,
)
    requires
        0 <= pos,
        end <= d.len(),
        are_kept(done, ordered),
    ensures
        chunk_v2_at(d, pos, end, ordered, os, ls, done, pending) matches Ok((all, rest))
            ==> are_kept(all, ordered),
    decreases end - pos,
{
    let m = message_v2_at(d, pos, ordered);
    let p = pos + prefix_v2(ordered);
    if p <= end && p + m.size <= end {
        let next = p + m.size;
        if m.msg_type == MessageType::ObjectHeaderContinuation {
            match continuation_of(m.data, os, ls) {
                Err(e) => {},
                Ok(None) => {
                    lemma_chunk_v2(d, next, end, ordered, os, ls, done, pending);
                },
                Ok(Some(block)) => {
                    lemma_chunk_v2(d, next, end, ordered, os, ls, done, pending.push(block));
                },
            }
        } else {
            lemma_chunk_v2(d, next, end, ordered, os, ls, collect(done, m), pending);
        }
    }
}

proof fn lemma_followed_v2(
    d: Seq<u8>,
    ordered: bool,
    os: u8,
    ls: u8,
    left: nat,
    done: Seq<HeaderMessageModel>,
    pending: Seq<(usize, usize)>,
)
    requires
        are_kept(done, ordered),
    ensures
        followed_v2(d, ordered, os, ls, left, done, pending) matches Ok(all) ==> are_kept(
            all,
            ordered,
        ),
    decreases left,
{
    if pending.len() > 0 && left > 0 {
        let (offset, length) = pending.last();
        let before = pending.drop_last();
        if crate::utils::fits(d, offset as int, length as int) && length >= 8 {
            lemma_chunk_v2(
                d,
                offset + 4,
                offset + length - 4,
                ordered,
                os,
                ls,
                done,
                before,
            );
        }
        if let Ok((all, rest)) = continuation_v2_at(
            d,
            offset as int,
            length as int,
            ordered,
            os,
            ls,
            done,
            before,
        ) {
            lemma_followed_v2(d, ordered, os, ls, (left - 1) as nat, all, rest);
        }
    }
}

/// A parsed header is of version 1 or 2 and keeps no NIL message, and each message has the data that
/// its size says. Version 1 has a reference count, and neither flags nor times nor creation orders.
/// Version 2 has no reference count; it has the four times just where its flags say so, and so with
/// the creation order of each message.
pub proof fn law_parsed_header(d: Seq<u8>, offset: int, os: u8, ls: u8)
    requires
        0 <= offset,
    ensures
        header_at(d, offset, os, ls) matches Ok(h) ==> {
            &&& h.version == 1 || h.version == 2
            &&& h.version == 1 ==> {
                &&& are_kept(h.messages, false)
                &&& h.reference_count is Some
                &&& h.flags == 0
                &&& h.access_time is None
                &&& h.modification_time is None
                &&& h.change_time is None
                &&& h.birth_time is None
            }
            &&& h.version == 2 ==> {
                let timed = h.flags & 0x20 != 0;
                &&& are_kept(h.messages, h.flags & 0x04 != 0)
                &&& h.reference_count is None
                &&& h.access_time is Some <==> timed
                &&& h.modification_time is Some <==> timed
                &&& h.change_time is Some <==> timed
                &&& h.birth_time is Some <==> timed
            }
        },
{
    if let Ok(h) = header_at(d, offset, os, ls) {
        let flags = h.flags;
        assert((flags & 0x20 != 0) == (flags / 32 % 2 == 1)) by (bit_vector);
        assert((flags & 0x04 != 0) == (flags / 4 % 2 == 1)) by (bit_vector);
        if crate::bytes::has_tag(d, offset, ohdr()) {
            let ordered = flags / 4 % 2 == 1;
            let p = offset + 6;
            let q = if flags / 32 % 2 == 1 {
                p + 16
            } else {
                p
            };
            let s = if flags / 16 % 2 == 1 {
                q + 4
            } else {
                q
            };
            let width = size_width(flags % 4);
            let start = s + width;
            let end = start + (crate::utils::uint_at(d, s, width) as usize);
            let none = Seq::<HeaderMessageModel>::empty();
            lemma_chunk_v2(d, start, end, ordered, os, ls, none, Seq::empty());
            let (all, pending) = chunk_v2_at(
                d,
                start,
                end,
                ordered,
                os,
                ls,
                none,
                Seq::empty(),
            )->Ok_0;
            lemma_followed_v2(d, ordered, os, ls, 256, all, pending);
        } else {
            let start = offset + 16;
            lemma_messages_v1(
                d,
                start,
                start + crate::bytes::u32_at(d, offset + 8),
                crate::bytes::u16_at(d, offset + 2) as nat,
                os,
                ls,
                Seq::empty(),
            );
        }
    }
}

} // verus!

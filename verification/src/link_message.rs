//! HDF5 Link message parsing (message type 0x0006).

use vstd::prelude::*;
use vstd::slice::slice_subrange;
use vstd::string::*;
use vstd::utf8::*;
use crate::bytes::{byte_len, order_u16, order_u64, put_address, put_le, put_slice, put_u64};
use crate::datatype::CharacterSet;
use crate::error::{ErrorModel, FormatError};
use crate::text::{decode_lossy, find_zero};
use crate::utils::{ensure_len, read_offset};

verus! {

broadcast use vstd::std_specs::control_flow::group_control_flow_axioms;

/// The type of a link in an HDF5 v2 group.
#[derive(Debug, Clone, PartialEq)]
pub enum LinkTarget {
    /// Hard link pointing to an object header address.
    Hard { object_header_address: u64 },
    /// Soft (symbolic) link with a target path string.
    Soft { target_path: String },
    /// External link pointing to a file and object path within it.
    External { filename: String, object_path: String },
}

/// A parsed HDF5 Link message (type 0x0006).
#[derive(Debug, Clone, PartialEq)]
pub struct LinkMessage {
    /// Name of this link.
    pub name: String,
    /// What this link points to.
    pub link_target: LinkTarget,
    /// Creation order, if tracked.
    pub creation_order: Option<u64>,
    /// Character set of the link name.
    pub charset: CharacterSet,
}

/// The content of a [`LinkTarget`].
pub enum LinkTargetModel {
    Hard { object_header_address: u64 },
    Soft { target_path: Seq<char> },
    External { filename: Seq<char>, object_path: Seq<char> },
}

/// The content of a [`LinkMessage`].
pub struct LinkModel {
    pub name: Seq<char>,
    pub link_target: LinkTargetModel,
    pub creation_order: Option<u64>,
    pub charset: CharacterSet,
}

impl DeepView for LinkTarget {
    type V = LinkTargetModel;

    open spec fn deep_view(&self) -> LinkTargetModel {
        match self {
            LinkTarget::Hard { object_header_address } => LinkTargetModel::Hard {
                object_header_address: *object_header_address,
            },
            LinkTarget::Soft { target_path } => LinkTargetModel::Soft { target_path: target_path@ },
            LinkTarget::External { filename, object_path } => LinkTargetModel::External {
                filename: filename@,
                object_path: object_path@,
            },
        }
    }
}

impl DeepView for LinkMessage {
    type V = LinkModel;

    open spec fn deep_view(&self) -> LinkModel {
        LinkModel {
            name: self.name@,
            link_target: self.link_target.deep_view(),
            creation_order: self.creation_order,
            charset: self.charset,
        }
    }
}

// ---- Parsing ----

/// The link that the message `d` describes.
pub open spec fn link_of(d: Seq<u8>, os: u8) -> Result<LinkModel, ErrorModel> {
    if !crate::utils::fits(d, 0, 2) {
        Err(crate::utils::eof(d, 0, 2))
    } else if d[0] != 1 {
        Err(ErrorModel::Plain(FormatError::InvalidLinkVersion(d[0])))
    } else {
        let typed = d[1] / 8 % 2 == 1;
        let ordered = d[1] / 4 % 2 == 1;
        let charset = d[1] / 16 % 2 == 1;
        let p1: int = if typed {
            3
        } else {
            2
        };
        let p2 = if ordered {
            p1 + 8
        } else {
            p1
        };
        let p3 = if charset {
            p2 + 1
        } else {
            p2
        };
        if typed && !crate::utils::fits(d, 2, 1) {
            Err(crate::utils::eof(d, 2, 1))
        } else if ordered && !crate::utils::fits(d, p1, 8) {
            Err(crate::utils::eof(d, p1, 8))
        } else if charset && !crate::utils::fits(d, p2, 1) {
            Err(crate::utils::eof(d, p2, 1))
        } else if charset && d[p2] > 1 {
            Err(ErrorModel::Plain(FormatError::InvalidCharacterSet(d[p2])))
        } else {
            let code = if typed {
                d[2]
            } else {
                0
            };
            match named_target_at(d, p3, code, os) {
                Err(e) => Err(e),
                Ok((name, link_target)) => Ok(
                    LinkModel {
                        name,
                        link_target,
                        creation_order: if ordered {
                            Some(crate::bytes::u64_at(d, p1))
                        } else {
                            None
                        },
                        charset: if charset && d[p2] == 1 {
                            CharacterSet::Utf8
                        } else {
                            CharacterSet::Ascii
                        },
                    },
                ),
            }
        }
    }
}

/// The name, whose length stands at `pos`, and the target of a link of type `code`.
pub open spec fn named_target_at(d: Seq<u8>, pos: int, code: u8, os: u8) -> Result<
    (Seq<char>, LinkTargetModel),
    ErrorModel,
> {
    let width = crate::object_header::size_width(d[1] % 4);
    match crate::utils::offset_at(d, pos, width) {
        Err(e) => Err(e),
        Ok(length) => {
            let n = (length as usize) as int;
            let p = pos + width;
            if !crate::utils::fits(d, p, n) {
                Err(crate::utils::eof(d, p, n))
            } else {
                match target_at(d, p + n, code, os) {
                    Err(e) => Err(e),
                    Ok(target) => Ok((crate::text::lossy_text(d.subrange(p, p + n)), target)),
                }
            }
        },
    }
}

/// The target at `p` of a link of type `code`.
pub open spec fn target_at(d: Seq<u8>, p: int, code: u8, os: u8) -> Result<
    LinkTargetModel,
    ErrorModel,
> {
    if code == 0 {
        match crate::utils::offset_at(d, p, os) {
            Err(e) => Err(e),
            Ok(a) => Ok(LinkTargetModel::Hard { object_header_address: a }),
        }
    } else if code == 1 || code == 64 {
        if !crate::utils::fits(d, p, 2) {
            Err(crate::utils::eof(d, p, 2))
        } else {
            let n = crate::bytes::u16_at(d, p) as int;
            if !crate::utils::fits(d, p + 2, n) {
                Err(crate::utils::eof(d, p + 2, n))
            } else {
                let value = d.subrange(p + 2, p + 2 + n);
                if code == 1 {
                    Ok(LinkTargetModel::Soft { target_path: crate::text::lossy_text(value) })
                } else {
                    Ok(external_of(value))
                }
            }
        }
    } else {
        Err(ErrorModel::Plain(FormatError::InvalidLinkType(code)))
    }
}

/// The external target in `value`: a byte of flags, the file name and the object path, each
/// ended by a zero byte.
pub open spec fn external_of(value: Seq<u8>) -> LinkTargetModel {
    let rest = if value.len() > 0 {
        value.subrange(1, value.len() as int)
    } else {
        value
    };
    let z1 = crate::text::zero_from(rest, 0);
    let after = if z1 + 1 < rest.len() {
        z1 + 1
    } else {
        rest.len() as int
    };
    let rest2 = rest.subrange(after, rest.len() as int);
    LinkTargetModel::External {
        filename: crate::text::lossy_text(rest.subrange(0, z1)),
        object_path: crate::text::lossy_text(
            rest2.subrange(0, crate::text::zero_from(rest2, 0)),
        ),
    }
}

// ---- Serializing ----

impl LinkTargetModel {
    /// The code of the type of link; none for a hard link.
    pub open spec fn code_bytes(self) -> Seq<u8> {
        match self {
            LinkTargetModel::Hard { .. } => Seq::empty(),
            LinkTargetModel::Soft { .. } => seq![1u8],
            LinkTargetModel::External { .. } => seq![64u8],
        }
    }

    /// The value of an external link.
    pub open spec fn external_bytes(filename: Seq<char>, object_path: Seq<char>) -> Seq<u8> {
        seq![0u8] + encode_utf8(filename) + seq![0u8] + encode_utf8(object_path) + seq![0u8]
    }

    /// The bytes of the target.
    pub open spec fn bytes(self, os: u8) -> Seq<u8> {
        match self {
            LinkTargetModel::Hard { object_header_address } => crate::bytes::address_bytes(
                object_header_address,
                os,
            ),
            LinkTargetModel::Soft { target_path } => crate::bytes::le_bytes(
                encode_utf8(target_path).len(),
                2,
            ) + encode_utf8(target_path),
            LinkTargetModel::External { filename, object_path } => {
                let value = LinkTargetModel::external_bytes(filename, object_path);
                crate::bytes::le_bytes(value.len(), 2) + value
            },
        }
    }

    /// Whether the message has room for the target: an address fits in `os` bytes, the text in
    /// 65535 bytes, and the texts of an external link hold no zero character.
    pub open spec fn representable(self, os: u8) -> bool {
        match self {
            LinkTargetModel::Hard { object_header_address } => crate::superblock::is_size(os)
                && object_header_address < crate::bytes::pow256(os as nat),
            LinkTargetModel::Soft { target_path } => encode_utf8(target_path).len() <= 0xFFFF,
            LinkTargetModel::External { filename, object_path } => {
                &&& LinkTargetModel::external_bytes(filename, object_path).len() <= 0xFFFF
                &&& forall|i: int| 0 <= i < filename.len() ==> filename[i] != '\0'
                &&& forall|i: int| 0 <= i < object_path.len() ==> object_path[i] != '\0'
            },
        }
    }
}

impl LinkModel {
    /// The width of the length of the name.
    pub open spec fn length_width(self) -> u8 {
        let n = encode_utf8(self.name).len();
        if n <= 0xFF {
            1
        } else if n <= 0xFFFF {
            2
        } else {
            4
        }
    }

    /// The flags: the width of the length of the name, and which optional fields are there.
    pub open spec fn flags(self) -> u8 {
        let width: int = if self.length_width() == 1 {
            0
        } else if self.length_width() == 2 {
            1
        } else {
            2
        };
        let ordered: int = if self.creation_order is Some {
            4
        } else {
            0
        };
        let typed: int = if self.link_target is Hard {
            0
        } else {
            8
        };
        let charset: int = if self.charset == CharacterSet::Ascii {
            0
        } else {
            16
        };
        (width + ordered + typed + charset) as u8
    }

    /// The bytes of the creation order, if there is one.
    pub open spec fn order_bytes(self) -> Seq<u8> {
        match self.creation_order {
            Some(v) => crate::bytes::le_bytes(v as nat, 8),
            None => Seq::empty(),
        }
    }

    /// The byte of the character set, unless it is ASCII.
    pub open spec fn charset_bytes(self) -> Seq<u8> {
        if self.charset == CharacterSet::Ascii {
            Seq::empty()
        } else {
            seq![1u8]
        }
    }

    /// The bytes of the link message.
    pub open spec fn bytes(self, os: u8) -> Seq<u8> {
        let name = encode_utf8(self.name);
        seq![1u8, self.flags()] + self.link_target.code_bytes() + self.order_bytes()
            + self.charset_bytes() + crate::bytes::le_bytes(
            name.len(),
            self.length_width() as nat,
        ) + name + self.link_target.bytes(os)
    }
}

impl LinkTarget {
    fn serialize(&self, buf: &mut Vec<u8>, offset_size: u8)
        ensures
            final(buf)@ == old(buf)@ + self.deep_view().bytes(offset_size),
    {
        match self {
            LinkTarget::Hard { object_header_address } => {
                put_address(buf, *object_header_address, offset_size);
            },
            LinkTarget::Soft { target_path } => {
                let path_bytes = target_path.as_str().as_bytes();
                let mut out: Vec<u8> = Vec::new();
                put_le(&mut out, path_bytes.len() as u64, 2);
                put_slice(&mut out, path_bytes);
                assert(out@ =~= self.deep_view().bytes(offset_size));
                put_slice(buf, out.as_slice());
            },
            LinkTarget::External { filename, object_path } => {
                let mut ext_data: Vec<u8> = Vec::new();
                ext_data.push(0);  // flags
                put_slice(&mut ext_data, filename.as_str().as_bytes());
                ext_data.push(0);
                put_slice(&mut ext_data, object_path.as_str().as_bytes());
                ext_data.push(0);
                assert(ext_data@ =~= LinkTargetModel::external_bytes(filename@, object_path@));
                let mut out: Vec<u8> = Vec::new();
                put_le(&mut out, ext_data.len() as u64, 2);
                put_slice(&mut out, ext_data.as_slice());
                assert(out@ =~= self.deep_view().bytes(offset_size));
                put_slice(buf, out.as_slice());
            },
        }
    }
}

impl LinkMessage {
    /// Serialize link message to HDF5 message bytes.
    pub fn serialize(&self, offset_size: u8) -> (buf: Vec<u8>)
        ensures
            buf@ == self.deep_view().bytes(offset_size),
    {
        let ghost m = self.deep_view();
        let name_bytes = self.name.as_str().as_bytes();
        let name_len: usize = name_bytes.len();
        let (width, size_bits): (u8, u8) = if name_len <= 0xFF {
            (1, 0)
        } else if name_len <= 0xFFFF {
            (2, 1)
        } else {
            (4, 2)
        };
        let mut flags: u8 = size_bits;
        // Bit 2: creation order present
        if self.creation_order.is_some() {
            flags += 0x04;
        }
        // Bit 3: link type present

        let (has_link_type, type_code): (bool, u8) = match &self.link_target {
            LinkTarget::Hard { .. } => (false, 0),
            LinkTarget::Soft { .. } => (true, 1),
            LinkTarget::External { .. } => (true, 64),
        };
        if has_link_type {
            flags += 0x08;
        }
        // Bit 4: charset present

        let has_charset = self.charset != CharacterSet::Ascii;
        if has_charset {
            flags += 0x10;
        }
        let mut buf: Vec<u8> = Vec::new();
        buf.push(1);  // version
        buf.push(flags);
        let ghost head = seq![1u8, m.flags()];
        assert(buf@ =~= head);
        if has_link_type {
            buf.push(type_code);
        }
        assert(buf@ =~= head + m.link_target.code_bytes());
        let ghost coded = buf@;
        if let Some(co) = self.creation_order {
            put_u64(&mut buf, co);
        }
        assert(buf@ =~= coded + m.order_bytes());
        let ghost ordered = buf@;
        if has_charset {
            buf.push(1);
        }
        assert(buf@ =~= ordered + m.charset_bytes());
        put_le(&mut buf, name_len as u64, width as usize);
        put_slice(&mut buf, name_bytes);
        self.link_target.serialize(&mut buf, offset_size);
        buf
    }

    /// Parse a Link message from raw message data.
    ///
    /// `offset_size` is needed for hard link target addresses.
    pub fn parse(data: &[u8], offset_size: u8) -> (r: Result<LinkMessage, FormatError>)
        ensures
            crate::error::outcome(r) == link_of(data@, offset_size),
    {
        ensure_len(data, 0, 2)?;
        let version = data[0];
        if version != 1 {
            return Err(FormatError::InvalidLinkVersion(version));
        }
        let flags = data[1];
        // Bit 2: creation order field present
        let has_creation_order = flags / 4 % 2 == 1;
        // Bit 3: link type field present
        let has_link_type = flags / 8 % 2 == 1;
        // Bit 4: link name character set field present
        let has_charset = flags / 16 % 2 == 1;
        let mut pos: usize = 2;
        // Link type
        let link_type_code: u8 = if has_link_type {
            ensure_len(data, pos, 1)?;
            let v = data[pos];
            pos += 1;
            v
        } else {
            0  // hard link

        };
        // Creation order
        let creation_order = if has_creation_order {
            ensure_len(data, pos, 8)?;
            let co = order_u64(slice_subrange(data, pos, pos + 8));
            pos += 8;
            Some(co)
        } else {
            None
        };
        // Character set
        let charset = if has_charset {
            ensure_len(data, pos, 1)?;
            let cs = data[pos];
            pos += 1;
            match cs {
                0 => CharacterSet::Ascii,
                1 => CharacterSet::Utf8,
                _ => {
                    return Err(FormatError::InvalidCharacterSet(cs));
                },
            }
        } else {
            CharacterSet::Ascii
        };
        let (name, link_target) = LinkMessage::parse_target(
            data,
            pos,
            link_type_code,
            offset_size,
        )?;
        Ok(LinkMessage { name, link_target, creation_order, charset })
    }

    /// Parse the name and the target of a link.
    fn parse_target(data: &[u8], start: usize, link_type_code: u8, offset_size: u8) -> (r: Result<
        (String, LinkTarget),
        FormatError,
    >)
        requires
            start <= 12,
            data@.len() >= 2,
        ensures
            match r {
                Ok((name, target)) => named_target_at(
                    data@,
                    start as int,
                    link_type_code,
                    offset_size,
                ) == Ok::<(Seq<char>, LinkTargetModel), ErrorModel>((name@, target.deep_view())),
                Err(e) => named_target_at(data@, start as int, link_type_code, offset_size)
                    == Err::<(Seq<char>, LinkTargetModel), ErrorModel>(e.deep_view()),
            },
    {
        let _len: usize = byte_len(data);
        // Bits 0-1: size of the name length field (1/2/4/8 bytes)
        let name_size_field_width: u8 = match data[1] % 4 {
            0 => 1,
            1 => 2,
            2 => 4,
            _ => 8,
        };
        let mut pos: usize = start;
        // Link name length
        let name_len: usize = read_offset(data, pos, name_size_field_width)? as usize;
        pos += name_size_field_width as usize;
        // Link name
        ensure_len(data, pos, name_len)?;
        let name = decode_lossy(slice_subrange(data, pos, pos + name_len));
        pos += name_len;
        // Link target data
        let link_target = match link_type_code {
            0 => {
                // Hard link
                let addr = read_offset(data, pos, offset_size)?;
                LinkTarget::Hard { object_header_address: addr }
            },
            1 => {
                // Soft link
                ensure_len(data, pos, 2)?;
                let soft_len: usize = order_u16(slice_subrange(data, pos, pos + 2)) as usize;
                pos += 2;
                ensure_len(data, pos, soft_len)?;
                let target_path = decode_lossy(slice_subrange(data, pos, pos + soft_len));
                LinkTarget::Soft { target_path }
            },
            64 => {
                // External link
                ensure_len(data, pos, 2)?;
                let ext_len: usize = order_u16(slice_subrange(data, pos, pos + 2)) as usize;
                pos += 2;
                ensure_len(data, pos, ext_len)?;
                LinkMessage::parse_external(slice_subrange(data, pos, pos + ext_len))
            },
            other => {
                return Err(FormatError::InvalidLinkType(other));
            },
        };
        Ok((name, link_target))
    }

    /// External link value: flags(1) + null-terminated filename + null-terminated obj path.
    fn parse_external(ext_data: &[u8]) -> (target: LinkTarget)
        ensures
            target.deep_view() == external_of(ext_data@),
    {
        // Skip the flags byte
        let start: usize = if ext_data.len() > 0 {
            1
        } else {
            0
        };
        let rest = slice_subrange(ext_data, start, ext_data.len());
        assert(ext_data@.len() == 0 ==> rest@ =~= ext_data@);
        let null1: usize = find_zero(rest, 0);
        let filename = decode_lossy(slice_subrange(rest, 0, null1));
        let len: usize = byte_len(rest);
        let after_null1: usize = if null1 + 1 < len {
            null1 + 1
        } else {
            len
        };
        let rest2 = slice_subrange(rest, after_null1, len);
        let null2: usize = find_zero(rest2, 0);
        let object_path = decode_lossy(slice_subrange(rest2, 0, null2));
        LinkTarget::External { filename, object_path }
    }
}

// ---- Laws ----

proof fn lemma_external_round_trip(filename: Seq<char>, object_path: Seq<char>)
    requires
        forall|i: int| 0 <= i < filename.len() ==> filename[i] != '\0',
        forall|i: int| 0 <= i < object_path.len() ==> object_path[i] != '\0',
    ensures
        external_of(LinkTargetModel::external_bytes(filename, object_path))
            == (LinkTargetModel::External { filename, object_path }),
{
    let value = LinkTargetModel::external_bytes(filename, object_path);
    let f = encode_utf8(filename);
    let o = encode_utf8(object_path);
    let rest = f + seq![0u8] + o + seq![0u8];
    assert(value.subrange(1, value.len() as int) =~= rest);
    crate::text::lemma_no_zero_byte(filename);
    crate::text::lemma_no_zero_byte(object_path);
    assert forall|k: int| 0 <= k < f.len() implies rest[k] != 0 by {
        assert(rest[k] == f[k]);
    }
    crate::text::lemma_zero_from_is(rest, 0, f.len() as int);
    assert(rest.subrange(0, f.len() as int) =~= f);
    let rest2 = o + seq![0u8];
    assert(rest.subrange(f.len() as int + 1, rest.len() as int) =~= rest2);
    assert forall|k: int| 0 <= k < o.len() implies rest2[k] != 0 by {
        assert(rest2[k] == o[k]);
    }
    crate::text::lemma_zero_from_is(rest2, 0, o.len() as int);
    assert(rest2.subrange(0, o.len() as int) =~= o);
    crate::text::lemma_text_round_trip(filename);
    crate::text::lemma_text_round_trip(object_path);
}

proof fn lemma_target_round_trip(d: Seq<u8>, p: int, t: LinkTargetModel, os: u8, rest: Seq<u8>)
    requires
        0 <= p <= d.len(),
        t.representable(os),
        d.subrange(p, d.len() as int) == t.bytes(os) + rest,
    ensures
        target_at(
            d,
            p,
            if t is Hard {
                0u8
            } else {
                t.code_bytes()[0]
            },
            os,
        ) == Ok::<LinkTargetModel, ErrorModel>(t),
{
    match t {
        LinkTargetModel::Hard { object_header_address } => {
            crate::bytes::lemma_le_bytes_len(object_header_address as nat, os as nat);
            crate::bytes::lemma_peel(d, p, t.bytes(os), rest);
            crate::utils::lemma_uint_round_trip(d, p, object_header_address as nat, os);
        },
        LinkTargetModel::Soft { target_path } => {
            let value = encode_utf8(target_path);
            let n = crate::bytes::le_bytes(value.len(), 2);
            assert(n + value + rest =~= n + (value + rest));
            crate::filter_pipeline::lemma_u16_field(d, p, value.len(), value + rest);
            crate::bytes::lemma_peel(d, p + 2, value, rest);
            crate::text::lemma_text_round_trip(target_path);
        },
        LinkTargetModel::External { filename, object_path } => {
            let value = LinkTargetModel::external_bytes(filename, object_path);
            let n = crate::bytes::le_bytes(value.len(), 2);
            assert(n + value + rest =~= n + (value + rest));
            crate::filter_pipeline::lemma_u16_field(d, p, value.len(), value + rest);
            crate::bytes::lemma_peel(d, p + 2, value, rest);
            lemma_external_round_trip(filename, object_path);
        },
    }
}

/// Where the optional fields of a link stand.
pub open spec fn field_ends(m: LinkModel) -> (int, int, int) {
    let p1 = 2 + m.link_target.code_bytes().len() as int;
    let p2 = p1 + m.order_bytes().len() as int;
    (p1, p2, p2 + m.charset_bytes().len() as int)
}

proof fn lemma_fields(d: Seq<u8>, m: LinkModel, rest: Seq<u8>)
    requires
        d == seq![1u8, m.flags()] + (m.link_target.code_bytes() + (m.order_bytes() + (
        m.charset_bytes() + rest))),
    ensures
        ({
            let (p1, p2, p3) = field_ends(m);
            &&& d[0] == 1
            &&& d[1] == m.flags()
            &&& m.link_target !is Hard ==> p1 == 3 && d[2] == m.link_target.code_bytes()[0]
            &&& m.link_target is Hard ==> p1 == 2
            &&& p2 == p1 + if m.creation_order is Some {
                8int
            } else {
                0
            }
            &&& m.creation_order matches Some(v) ==> crate::bytes::u64_at(d, p1) == v
            &&& p3 == p2 + if m.charset == CharacterSet::Ascii {
                0int
            } else {
                1
            }
            &&& m.charset != CharacterSet::Ascii ==> d[p2] == 1
            &&& p3 <= d.len()
            &&& d.subrange(p3, d.len() as int) == rest
        }),
{
    let head = seq![1u8, m.flags()];
    let code = m.link_target.code_bytes();
    let order = m.order_bytes();
    let charset = m.charset_bytes();
    assert(d[0] == head[0] && d[1] == head[1]);
    assert(d.subrange(2, d.len() as int) =~= code + (order + (charset + rest)));
    crate::bytes::lemma_peel(d, 2, code, order + (charset + rest));
    assert(m.link_target !is Hard ==> d.subrange(2, 3)[0] == d[2]);
    let p1 = 2 + code.len() as int;
    if let Some(v) = m.creation_order {
        crate::bytes::lemma_le_bytes_len(v as nat, 8);
    }
    crate::bytes::lemma_peel(d, p1, order, charset + rest);
    if let Some(v) = m.creation_order {
        crate::bytes::lemma_u64_round_trip(d, p1, v);
    }
    let p2 = p1 + order.len() as int;
    crate::bytes::lemma_peel(d, p2, charset, rest);
    assert(m.charset != CharacterSet::Ascii ==> d.subrange(p2, p2 + 1)[0] == d[p2]);
}

proof fn lemma_named_target(d: Seq<u8>, pos: int, m: LinkModel, os: u8, rest: Seq<u8>)
    requires
        m.link_target.representable(os),
        encode_utf8(m.name).len() <= u32::MAX,
        0 <= pos <= d.len(),
        d[1] == m.flags(),
        d.subrange(pos, d.len() as int) == crate::bytes::le_bytes(
            encode_utf8(m.name).len(),
            m.length_width() as nat,
        ) + (encode_utf8(m.name) + (m.link_target.bytes(os) + rest)),
    ensures
        named_target_at(
            d,
            pos,
            if m.link_target is Hard {
                0u8
            } else {
                m.link_target.code_bytes()[0]
            },
            os,
        ) == Ok::<(Seq<char>, LinkTargetModel), ErrorModel>((m.name, m.link_target)),
{
    let name = encode_utf8(m.name);
    let width = m.length_width();
    let nl = crate::bytes::le_bytes(name.len(), width as nat);
    let target = m.link_target.bytes(os);
    lemma_flags(m);
    crate::bytes::lemma_le_bytes_len(name.len(), width as nat);
    crate::bytes::lemma_peel(d, pos, nl, name + (target + rest));
    crate::bytes::lemma_pow256_values();
    crate::utils::lemma_uint_round_trip(d, pos, name.len(), width);
    crate::bytes::lemma_peel(d, pos + width, name, target + rest);
    lemma_target_round_trip(d, pos + width + name.len(), m.link_target, os, rest);
    crate::text::lemma_text_round_trip(m.name);
}

proof fn lemma_regroup(
    a: Seq<u8>,
    b: Seq<u8>,
    c: Seq<u8>,
    d: Seq<u8>,
    e: Seq<u8>,
    f: Seq<u8>,
    g: Seq<u8>,
    h: Seq<u8>,
)
    ensures
        a + b + c + d + e + f + g + h == a + (b + (c + (d + (e + (f + (g + h)))))),
{
    assert(a + b + c + d + e + f + g + h =~= a + (b + (c + (d + (e + (f + (g + h)))))));
}

/// Parsing the bytes of a link gives it back, whatever follows them.
pub proof fn law_link_round_trip(m: LinkModel, os: u8, rest: Seq<u8>)
    requires
        m.link_target.representable(os),
        encode_utf8(m.name).len() <= u32::MAX,
    ensures
        link_of(m.bytes(os) + rest, os) == Ok::<LinkModel, ErrorModel>(m),
{
    let d = m.bytes(os) + rest;
    let name = encode_utf8(m.name);
    let nl = crate::bytes::le_bytes(name.len(), m.length_width() as nat);
    let tail = nl + (name + (m.link_target.bytes(os) + rest));
    lemma_regroup(
        seq![1u8, m.flags()],
        m.link_target.code_bytes(),
        m.order_bytes(),
        m.charset_bytes(),
        nl,
        name,
        m.link_target.bytes(os),
        rest,
    );
    lemma_fields(d, m, tail);
    lemma_flags(m);
    let (p1, p2, p3) = field_ends(m);
    lemma_named_target(d, p3, m, os, rest);
}

proof fn lemma_flags(m: LinkModel)
    ensures
        crate::object_header::size_width(m.flags() % 4) == m.length_width(),
        m.flags() / 4 % 2 == 1 <==> m.creation_order is Some,
        m.flags() / 8 % 2 == 1 <==> !(m.link_target is Hard),
        m.flags() / 16 % 2 == 1 <==> m.charset != CharacterSet::Ascii,
{
}

} // verus!

//! Link messages in all their forms, and what is read from them.

use vstd::prelude::*;
use vstd::utf8::*;
use crate::bytes;
use crate::datatype::{self, CharacterSet};
use crate::error::ErrorModel;
use crate::link_message::{self, LinkModel, LinkTargetModel};
use crate::places;

verus! {

/// How a link is written: the bytes of the length of its name, whether its type stands in it though
/// it is a hard link, whether its character set does, and the bits of the flags of which nothing is
/// read.
pub struct Form {
    pub width_bits: u8,
    pub typed: bool,
    pub with_charset: bool,
    pub high: u8,
}

/// The bytes of the length of the name: one, two, four or eight.
pub open spec fn length_bytes(f: Form) -> int {
    if f.width_bits == 0 {
        1
    } else if f.width_bits == 1 {
        2
    } else if f.width_bits == 2 {
        4
    } else {
        8
    }
}

/// The flags: the width of the length, whether there are a number, a type and a character set.
pub open spec fn flag_byte(f: Form, ordered: bool) -> u8 {
    (f.width_bits + (if ordered {
        4int
    } else {
        0
    }) + (if f.typed {
        8int
    } else {
        0
    }) + (if f.with_charset {
        16int
    } else {
        0
    }) + 32 * (f.high % 8)) as u8
}

/// The types of links by their numbers.
pub open spec fn type_number(t: LinkTargetModel) -> u8 {
    match t {
        LinkTargetModel::Hard { .. } => 0,
        LinkTargetModel::Soft { .. } => 1,
        LinkTargetModel::External { .. } => 64,
    }
}

/// The target: the address of the object, or a length and a path, or a length, a byte of flags, a
/// file name and a path, each of these two with a zero byte behind it.
pub open spec fn target_bytes(t: LinkTargetModel, external_flags: u8, os: u8) -> Seq<u8> {
    match t {
        LinkTargetModel::Hard { object_header_address } => places::field(
            object_header_address as int,
            os as int,
        ),
        LinkTargetModel::Soft { target_path } => places::field(
            encode_utf8(target_path).len() as int,
            2,
        ) + encode_utf8(target_path),
        LinkTargetModel::External { filename, object_path } => places::field(
            external_value(filename, object_path, external_flags).len() as int,
            2,
        ) + external_value(filename, object_path, external_flags),
    }
}

pub open spec fn external_value(filename: Seq<char>, object_path: Seq<char>, flags: u8) -> Seq<u8> {
    seq![flags] + ((encode_utf8(filename) + seq![0u8]) + (encode_utf8(object_path) + seq![0u8]))
}

/// Whether the fields of a target have room for it.
pub open spec fn is_target(t: LinkTargetModel, external_flags: u8, os: u8) -> bool {
    match t {
        LinkTargetModel::Hard { object_header_address } => crate::utils::is_width(os)
            && object_header_address < bytes::pow256(os as nat),
        LinkTargetModel::Soft { target_path } => encode_utf8(target_path).len() <= 0xFFFF,
        LinkTargetModel::External { filename, object_path } => {
            &&& datatype::is_name(filename)
            &&& datatype::is_name(object_path)
            &&& external_value(filename, object_path, external_flags).len() <= 0xFFFF
        },
    }
}

/// A link message: version 1, flags, the type, the number, the character set as far as they are
/// there, the length of the name, the name, the target.
pub open spec fn link_bytes(l: LinkModel, f: Form, external_flags: u8, os: u8) -> Seq<u8> {
    seq![1u8, flag_byte(f, l.creation_order is Some)] + ((if f.typed {
        seq![type_number(l.link_target)]
    } else {
        Seq::empty()
    }) + ((match l.creation_order {
        Some(n) => places::field(n as int, 8),
        None => Seq::empty(),
    }) + ((if f.with_charset {
        seq![if l.charset == CharacterSet::Utf8 {
            1u8
        } else {
            0u8
        }]
    } else {
        Seq::empty()
    }) + (places::field(encode_utf8(l.name).len() as int, length_bytes(f)) + (encode_utf8(l.name)
        + target_bytes(l.link_target, external_flags, os))))))
}

/// Whether a link can be written in a form: the type is there unless it is a hard link, the character
/// set unless it is ASCII, and the length of the name fits.
pub open spec fn is_form(l: LinkModel, f: Form, external_flags: u8, os: u8) -> bool {
    &&& f.width_bits < 4
    &&& l.link_target is Hard || f.typed
    &&& l.charset == CharacterSet::Ascii || f.with_charset
    &&& encode_utf8(l.name).len() < bytes::pow256(length_bytes(f) as nat)
    &&& encode_utf8(l.name).len() <= usize::MAX
    &&& is_target(l.link_target, external_flags, os)
}

proof fn lemma_flags(f: Form, ordered: bool)
    requires
        f.width_bits < 4,
    ensures
        flag_byte(f, ordered) % 4 == f.width_bits,
        flag_byte(f, ordered) / 4 % 2 == 1 <==> ordered,
        flag_byte(f, ordered) / 8 % 2 == 1 <==> f.typed,
        flag_byte(f, ordered) / 16 % 2 == 1 <==> f.with_charset,
{
}

proof fn lemma_external(filename: Seq<char>, object_path: Seq<char>, flags: u8)
    requires
        datatype::is_name(filename),
        datatype::is_name(object_path),
    ensures
        link_message::external_of(external_value(filename, object_path, flags))
            == (LinkTargetModel::External { filename, object_path }),
{
    let value = external_value(filename, object_path, flags);
    let a = encode_utf8(filename);
    let b = encode_utf8(object_path);
    let n = a.len() as int;
    let m = b.len() as int;
    let rest = value.subrange(1, value.len() as int);
    assert(rest =~= (a + seq![0u8]) + (b + seq![0u8]));
    crate::text::lemma_no_zero_byte(filename);
    crate::text::lemma_no_zero_byte(object_path);
    crate::text::lemma_text_round_trip(filename);
    crate::text::lemma_text_round_trip(object_path);
    crate::text::lemma_zero_from_is(rest, 0, n);
    assert(rest.subrange(0, n) =~= a);
    let rest2 = rest.subrange(n + 1, rest.len() as int);
    assert(rest2 =~= b + seq![0u8]);
    crate::text::lemma_zero_from_is(rest2, 0, m);
    assert(rest2.subrange(0, m) =~= b);
}

proof fn lemma_target(d: Seq<u8>, p: int, t: LinkTargetModel, external_flags: u8, os: u8)
    requires
        is_target(t, external_flags, os),
        places::stands(d, p, target_bytes(t, external_flags, os)),
    ensures
        link_message::target_at(d, p, type_number(t), os) == Ok::<LinkTargetModel, ErrorModel>(t),
{
    match t {
        LinkTargetModel::Hard { object_header_address } => {
            places::lemma_word(d, p, object_header_address as int, os);
        },
        LinkTargetModel::Soft { target_path } => {
            let v = encode_utf8(target_path);
            let n = places::field(v.len() as int, 2);
            places::lemma_field_len(v.len() as int, 2);
            places::lemma_parts(d, p, n, v);
            places::lemma_u16(d, p, v.len() as int);
            crate::text::lemma_text_round_trip(target_path);
        },
        LinkTargetModel::External { filename, object_path } => {
            let v = external_value(filename, object_path, external_flags);
            let n = places::field(v.len() as int, 2);
            places::lemma_field_len(v.len() as int, 2);
            places::lemma_parts(d, p, n, v);
            places::lemma_u16(d, p, v.len() as int);
            lemma_external(filename, object_path, external_flags);
        },
    }
}

/// A link message of any form is read as its name, its target, its number and its character set.
#[verifier::spinoff_prover]
#[verifier::rlimit(60)]
pub proof fn law_link_of_any_form_is_read_back(
    l: LinkModel,
    f: Form,
    external_flags: u8,
    rest: Seq<u8>,
    os: u8,
)
    requires
        is_form(l, f, external_flags, os),
    ensures
        link_message::link_of(link_bytes(l, f, external_flags, os) + rest, os) == Ok::<
            LinkModel,
            ErrorModel,
        >(l),
{
    let d = link_bytes(l, f, external_flags, os) + rest;
    let front = seq![1u8, flag_byte(f, l.creation_order is Some)];
    let kind = if f.typed {
        seq![type_number(l.link_target)]
    } else {
        Seq::empty()
    };
    let number = match l.creation_order {
        Some(n) => places::field(n as int, 8),
        None => Seq::empty(),
    };
    let set = if f.with_charset {
        seq![if l.charset == CharacterSet::Utf8 {
            1u8
        } else {
            0u8
        }]
    } else {
        Seq::empty()
    };
    let name = encode_utf8(l.name);
    let width = length_bytes(f);
    let length = places::field(name.len() as int, width);
    let target = target_bytes(l.link_target, external_flags, os);
    let r4 = name + target;
    let r3 = length + r4;
    let r2 = set + r3;
    let r1 = number + r2;
    lemma_flags(f, l.creation_order is Some);
    places::lemma_field_len(name.len() as int, width);
    places::lemma_whole(d);
    places::lemma_parts(d, 0, front + (kind + r1), rest);
    places::lemma_parts(d, 0, front, kind + r1);
    places::lemma_byte(d, 0, front, 0);
    places::lemma_byte(d, 0, front, 1);
    places::lemma_parts(d, 2, kind, r1);
    if f.typed {
        places::lemma_byte(d, 2, kind, 0);
    }
    let p1 = 2 + kind.len() as int;
    places::lemma_parts(d, p1, number, r2);
    if let Some(n) = l.creation_order {
        places::lemma_field_len(n as int, 8);
        bytes::lemma_pow256_values();
        places::lemma_word(d, p1, n as int, 8);
    }
    let p2 = p1 + number.len();
    places::lemma_parts(d, p2, set, r3);
    if f.with_charset {
        places::lemma_byte(d, p2, set, 0);
    }
    let p3 = p2 + set.len();
    places::lemma_parts(d, p3, length, r4);
    places::lemma_word(d, p3, name.len() as int, width as u8);
    places::lemma_width_bound(width as u8);
    places::lemma_parts(d, p3 + width, name, target);
    lemma_target(d, p3 + width + name.len(), l.link_target, external_flags, os);
    crate::text::lemma_text_round_trip(l.name);
    assert(crate::object_header::size_width((d[1] % 4) as u8) == width);
    assert(link_message::named_target_at(d, p3, type_number(l.link_target), os) == Ok::<
        (Seq<char>, LinkTargetModel),
        ErrorModel,
    >((l.name, l.link_target)));
}

} // verus!

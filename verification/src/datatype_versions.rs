//! Datatype messages of all versions: how their parts stand in a message, and what is read from
//! it.

use vstd::prelude::*;
use crate::datatype::{self, CompoundMemberModel, DatatypeModel, EnumMemberModel};
use crate::error::ErrorModel;
use crate::places;

verus! {

/// Whether the bytes `e` are read as the datatype `t`, whatever stands behind them.
pub open spec fn reads_as(e: Seq<u8>, t: DatatypeModel) -> bool {
    forall|rest: Seq<u8>|
        #[trigger] datatype::parsed(e + rest) == Ok::<(DatatypeModel, int), ErrorModel>(
            (t, e.len() as int),
        )
}

/// The message that a representable datatype is written as is read as that datatype.
#[verifier::rlimit(30)]
pub proof fn law_written_datatype_is_read(m: DatatypeModel)
    requires
        datatype::representable(m),
    ensures
        reads_as(datatype::encoded(m), m),
{
    assert forall|rest: Seq<u8>|
        #[trigger] datatype::parsed(datatype::encoded(m) + rest) == Ok::<
            (DatatypeModel, int),
            ErrorModel,
        >((m, datatype::encoded(m).len() as int)) by {
        datatype::law_datatype_round_trip(m, rest);
    }
}

pub proof fn lemma_type_at(d: Seq<u8>, p: int, e: Seq<u8>, t: DatatypeModel)
    requires
        places::stands(d, p, e),
        reads_as(e, t),
    ensures
        datatype::parsed(d.subrange(p, d.len() as int)) == Ok::<(DatatypeModel, int), ErrorModel>(
            (t, e.len() as int),
        ),
{
    let rest = d.subrange(p + e.len(), d.len() as int);
    let tail = d.subrange(p, d.len() as int);
    assert forall|i: int| 0 <= i < tail.len() implies tail[i] == (e + rest)[i] by {
        if i < e.len() {
            places::lemma_byte(d, p, e, i);
        }
    }
    assert(tail =~= e + rest);
}

// ---- Parts of a message ----

/// The eight bytes in front: the class in the low half of the first byte and the version in its
/// high half, three bytes of flags, the size.
pub open spec fn front_bytes(class: int, version: int, flags: Seq<u8>, size: u32) -> Seq<u8> {
    seq![(16 * version + class) as u8] + (flags + places::field(size as int, 4))
}

/// Flags of which the first two bytes count the members.
pub open spec fn count_flags(n: nat, last: u8) -> Seq<u8> {
    places::field(n as int, 2) + seq![last]
}

/// Zeros that fill `n` bytes up to a multiple of eight.
pub open spec fn filler(n: int) -> Seq<u8> {
    places::zeros((8 - n % 8) % 8)
}

/// A name with a zero byte behind it, and filled up to a multiple of eight bytes if that is asked
/// for.
pub open spec fn terminated(name: Seq<char>, filled: bool) -> Seq<u8> {
    let text = vstd::utf8::encode_utf8(name);
    (text + seq![0u8]) + if filled {
        filler(text.len() as int + 1)
    } else {
        Seq::empty()
    }
}

pub proof fn lemma_front(d: Seq<u8>, class: int, version: int, flags: Seq<u8>, size: u32)
    requires
        places::stands(d, 0, front_bytes(class, version, flags, size)),
        0 <= class < 16,
        0 <= version < 16,
        flags.len() == 3,
    ensures
        d.len() >= 8,
        front_bytes(class, version, flags, size).len() == 8,
        d[0] % 16 == class,
        d[0] / 16 == version,
        places::stands(d, 1, flags),
        crate::bytes::u32_at(d, 4) == size,
{
    let f = front_bytes(class, version, flags, size);
    places::lemma_field_len(size as int, 4);
    places::lemma_byte(d, 0, f, 0);
    places::lemma_parts(
        d,
        0,
        seq![(16 * version + class) as u8],
        flags + places::field(size as int, 4),
    );
    places::lemma_parts(d, 1, flags, places::field(size as int, 4));
    places::lemma_u32(d, 4, size as int);
}

proof fn lemma_count(d: Seq<u8>, n: nat, last: u8)
    requires
        places::stands(d, 1, count_flags(n, last)),
        n <= 0xFFFF,
    ensures
        crate::bytes::u16_at(d, 1) == n,
{
    places::lemma_parts(d, 1, places::field(n as int, 2), seq![last]);
    places::lemma_u16(d, 1, n as int);
}

proof fn lemma_name(d: Seq<u8>, p: int, name: Seq<char>, filled: bool)
    requires
        places::stands(d, p, terminated(name, filled)),
        datatype::is_name(name),
    ensures
        datatype::name_at(d, p) == Ok::<(Seq<char>, int), ErrorModel>(
            (name, vstd::utf8::encode_utf8(name).len() as int + 1),
        ),
        filled ==> terminated(name, filled).len() == crate::utils::padded8(
            vstd::utf8::encode_utf8(name).len() as int + 1,
        ),
        !filled ==> terminated(name, filled).len() == vstd::utf8::encode_utf8(name).len() + 1,
{
    let text = vstd::utf8::encode_utf8(name);
    let n = text.len() as int;
    let t = terminated(name, filled);
    crate::text::lemma_no_zero_byte(name);
    crate::text::lemma_text_round_trip(name);
    assert forall|k: int| p <= k < p + n implies d[k] != 0 by {
        places::lemma_byte(d, p, t, k - p);
        assert(t[k - p] == text[k - p]);
    }
    places::lemma_byte(d, p, t, n);
    crate::text::lemma_zero_from_is(d, p, p + n);
    let left = d.subrange(p, p + n);
    assert forall|i: int| 0 <= i < n implies left[i] == text[i] by {
        places::lemma_byte(d, p, t, i);
        assert(t[i] == text[i]);
    }
    assert(left =~= text);
}

// ---- Compounds of versions 1 and 2 ----

/// A member as it stands in a message of version 1 or 2: the 24 bytes of its dimensions hold
/// nothing that is read.
pub struct OldMember {
    pub name: Seq<char>,
    pub byte_offset: u32,
    pub dimensions: Seq<u8>,
    pub type_bytes: Seq<u8>,
    pub datatype: DatatypeModel,
}

impl OldMember {
    pub open spec fn wf(self) -> bool {
        &&& datatype::is_name(self.name)
        &&& self.dimensions.len() == 24
        &&& reads_as(self.type_bytes, self.datatype)
    }

    /// The member that is read.
    pub open spec fn model(self) -> CompoundMemberModel {
        CompoundMemberModel {
            name: self.name,
            byte_offset: self.byte_offset as u64,
            datatype: self.datatype,
        }
    }

    /// The bytes of the member: its name (filled up in version 1), its offset, its dimensions, its
    /// type.
    pub open spec fn bytes(self, version: int) -> Seq<u8> {
        terminated(self.name, version == 1) + (places::field(self.byte_offset as int, 4) + (
        self.dimensions + self.type_bytes))
    }
}

/// The members from the `k`-th on.
pub open spec fn old_members_bytes(ms: Seq<OldMember>, version: int, k: int) -> Seq<u8>
    decreases ms.len() - k,
{
    if 0 <= k < ms.len() {
        ms[k].bytes(version) + old_members_bytes(ms, version, k + 1)
    } else {
        Seq::empty()
    }
}

/// The message of a compound of version 1 or 2.
pub open spec fn old_compound_bytes(version: int, size: u32, ms: Seq<OldMember>, flag: u8) -> Seq<u8> {
    front_bytes(6, version, count_flags(ms.len(), flag), size) + old_members_bytes(ms, version, 0)
}

#[verifier::spinoff_prover]
#[verifier::rlimit(40)]
proof fn lemma_old_member(
    d: Seq<u8>,
    pos: int,
    m: OldMember,
    version: u8,
    count: nat,
    done: Seq<CompoundMemberModel>,
)
    requires
        0 < pos,
        0 < count,
        m.wf(),
        version == 1 || version == 2,
        places::stands(d, pos, m.bytes(version as int)),
    ensures
        datatype::old_members_at(d, pos, version, count, done) == datatype::old_members_at(
            d,
            pos + m.bytes(version as int).len(),
            version,
            (count - 1) as nat,
            done.push(m.model()),
        ),
        m.bytes(version as int).len() > 0,
{
    let name = terminated(m.name, version == 1);
    let offset = places::field(m.byte_offset as int, 4);
    places::lemma_parts(d, pos, name, offset + (m.dimensions + m.type_bytes));
    let p = pos + name.len();
    places::lemma_parts(d, p, offset, m.dimensions + m.type_bytes);
    places::lemma_field_len(m.byte_offset as int, 4);
    places::lemma_parts(d, p + 4, m.dimensions, m.type_bytes);
    lemma_name(d, pos, m.name, version == 1);
    places::lemma_u32(d, p, m.byte_offset as int);
    lemma_type_at(d, p + 28, m.type_bytes, m.datatype);
}

/// The members that are read.
pub open spec fn old_models(ms: Seq<OldMember>) -> Seq<CompoundMemberModel> {
    Seq::new(ms.len(), |i: int| ms[i].model())
}

#[verifier::spinoff_prover]
#[verifier::rlimit(40)]
proof fn lemma_old_members(d: Seq<u8>, pos: int, ms: Seq<OldMember>, version: u8, k: int)
    requires
        0 < pos,
        0 <= k <= ms.len(),
        version == 1 || version == 2,
        forall|i: int| 0 <= i < ms.len() ==> (#[trigger] ms[i]).wf(),
        places::stands(d, pos, old_members_bytes(ms, version as int, k)),
    ensures
        datatype::old_members_at(
            d,
            pos,
            version,
            (ms.len() - k) as nat,
            old_models(ms).take(k),
        ) == Ok::<(Seq<CompoundMemberModel>, int), ErrorModel>(
            (old_models(ms), pos + old_members_bytes(ms, version as int, k).len()),
        ),
    decreases ms.len() - k,
{
    let models = old_models(ms);
    if k == ms.len() {
        assert(models.take(k) =~= models);
    } else {
        let b = ms[k].bytes(version as int);
        places::lemma_parts(d, pos, b, old_members_bytes(ms, version as int, k + 1));
        lemma_old_member(d, pos, ms[k], version, (ms.len() - k) as nat, models.take(k));
        assert(models.take(k).push(ms[k].model()) =~= models.take(k + 1));
        lemma_old_members(d, pos + b.len(), ms, version, k + 1);
    }
}

/// A compound of version 1 or 2 is read as the compound of its members: each with its name, its
/// offset and its type, in their order. The dimensions that stand between offset and type change
/// nothing.
#[verifier::rlimit(30)]
pub proof fn law_old_compound_is_read_back(
    version: int,
    size: u32,
    ms: Seq<OldMember>,
    flag: u8,
)
    requires
        version == 1 || version == 2,
        ms.len() <= 0xFFFF,
        forall|i: int| 0 <= i < ms.len() ==> (#[trigger] ms[i]).wf(),
    ensures
        reads_as(
            old_compound_bytes(version, size, ms, flag),
            DatatypeModel::Compound { size, members: old_models(ms) },
        ),
{
    let e = old_compound_bytes(version, size, ms, flag);
    let t = DatatypeModel::Compound { size, members: old_models(ms) };
    assert forall|rest: Seq<u8>|
        #[trigger] datatype::parsed(e + rest) == Ok::<(DatatypeModel, int), ErrorModel>(
            (t, e.len() as int),
        ) by {
        lemma_old_compound(e + rest, version, size, ms, flag, rest);
    }
}

#[verifier::spinoff_prover]
#[verifier::rlimit(40)]
proof fn lemma_old_compound(
    d: Seq<u8>,
    version: int,
    size: u32,
    ms: Seq<OldMember>,
    flag: u8,
    rest: Seq<u8>,
)
    requires
        version == 1 || version == 2,
        ms.len() <= 0xFFFF,
        forall|i: int| 0 <= i < ms.len() ==> (#[trigger] ms[i]).wf(),
        d == old_compound_bytes(version, size, ms, flag) + rest,
    ensures
        datatype::parsed(d) == Ok::<(DatatypeModel, int), ErrorModel>(
            (
                DatatypeModel::Compound { size, members: old_models(ms) },
                old_compound_bytes(version, size, ms, flag).len() as int,
            ),
        ),
{
    let flags = count_flags(ms.len(), flag);
    places::lemma_field_len(ms.len() as int, 2);
    let front = front_bytes(6, version, flags, size);
    let body = old_members_bytes(ms, version, 0);
    places::lemma_whole(d);
    places::lemma_parts(d, 0, front + body, rest);
    places::lemma_parts(d, 0, front, body);
    lemma_front(d, 6, version, flags, size);
    lemma_count(d, ms.len(), flag);
    lemma_old_members(d, 8, ms, version as u8, 0);
    assert(old_models(ms).take(0) =~= Seq::<CompoundMemberModel>::empty());
}

// ---- Compounds of versions 3 and 4 ----

/// A member as it stands in a message of version 3 or 4.
pub struct Member {
    pub name: Seq<char>,
    pub byte_offset: u64,
    pub type_bytes: Seq<u8>,
    pub datatype: DatatypeModel,
}

impl Member {
    pub open spec fn wf(self, width: int) -> bool {
        &&& datatype::is_name(self.name)
        &&& self.byte_offset < crate::bytes::pow256(width as nat)
        &&& reads_as(self.type_bytes, self.datatype)
    }

    /// The member that is read.
    pub open spec fn model(self) -> CompoundMemberModel {
        CompoundMemberModel {
            name: self.name,
            byte_offset: self.byte_offset,
            datatype: self.datatype,
        }
    }

    /// The bytes of the member: its name, its offset, its type.
    pub open spec fn bytes(self, width: int) -> Seq<u8> {
        terminated(self.name, false) + (places::field(self.byte_offset as int, width)
            + self.type_bytes)
    }
}

/// The bytes that an offset takes: as few of one, two and four as the size of the compound allows.
pub open spec fn offset_bytes(size: u32) -> int {
    if size < 0x100 {
        1
    } else if size < 0x1_0000 {
        2
    } else {
        4
    }
}

/// The members from the `k`-th on.
pub open spec fn members_bytes(ms: Seq<Member>, width: int, k: int) -> Seq<u8>
    decreases ms.len() - k,
{
    if 0 <= k < ms.len() {
        ms[k].bytes(width) + members_bytes(ms, width, k + 1)
    } else {
        Seq::empty()
    }
}

/// The members that are read.
pub open spec fn models(ms: Seq<Member>) -> Seq<CompoundMemberModel> {
    Seq::new(ms.len(), |i: int| ms[i].model())
}

/// The message of a compound of version 3 or 4 (class 6), or of a complex number (class 11).
pub open spec fn compound_bytes(class: int, version: int, size: u32, ms: Seq<Member>, flag: u8) -> Seq<
    u8,
> {
    front_bytes(class, version, count_flags(ms.len(), flag), size) + members_bytes(
        ms,
        offset_bytes(size),
        0,
    )
}

#[verifier::spinoff_prover]
#[verifier::rlimit(40)]
proof fn lemma_member(
    d: Seq<u8>,
    pos: int,
    m: Member,
    width: int,
    count: nat,
    done: Seq<CompoundMemberModel>,
)
    requires
        0 < pos,
        0 < count,
        width == 1 || width == 2 || width == 4,
        m.wf(width),
        places::stands(d, pos, m.bytes(width)),
    ensures
        datatype::members_at(d, pos, width, count, done) == datatype::members_at(
            d,
            pos + m.bytes(width).len(),
            width,
            (count - 1) as nat,
            done.push(m.model()),
        ),
{
    let name = terminated(m.name, false);
    let offset = places::field(m.byte_offset as int, width);
    places::lemma_parts(d, pos, name, offset + m.type_bytes);
    let p = pos + name.len();
    places::lemma_parts(d, p, offset, m.type_bytes);
    places::lemma_field_len(m.byte_offset as int, width);
    lemma_name(d, pos, m.name, false);
    crate::utils::lemma_uint_round_trip(d, p, m.byte_offset as nat, width as u8);
    lemma_type_at(d, p + width, m.type_bytes, m.datatype);
}

#[verifier::spinoff_prover]
#[verifier::rlimit(40)]
proof fn lemma_members(d: Seq<u8>, pos: int, ms: Seq<Member>, width: int, k: int)
    requires
        0 < pos,
        0 <= k <= ms.len(),
        width == 1 || width == 2 || width == 4,
        forall|i: int| 0 <= i < ms.len() ==> (#[trigger] ms[i]).wf(width),
        places::stands(d, pos, members_bytes(ms, width, k)),
    ensures
        datatype::members_at(d, pos, width, (ms.len() - k) as nat, models(ms).take(k)) == Ok::<
            (Seq<CompoundMemberModel>, int),
            ErrorModel,
        >((models(ms), pos + members_bytes(ms, width, k).len())),
    decreases ms.len() - k,
{
    let all = models(ms);
    if k == ms.len() {
        assert(all.take(k) =~= all);
    } else {
        let b = ms[k].bytes(width);
        places::lemma_parts(d, pos, b, members_bytes(ms, width, k + 1));
        lemma_member(d, pos, ms[k], width, (ms.len() - k) as nat, all.take(k));
        assert(all.take(k).push(ms[k].model()) =~= all.take(k + 1));
        lemma_members(d, pos + b.len(), ms, width, k + 1);
    }
}

/// A compound of version 3 or 4, or a complex number of any version, is read as the compound of
/// its members: each with its name, its offset and its type, in their order.
#[verifier::rlimit(30)]
pub proof fn law_compound_is_read_back(
    class: int,
    version: int,
    size: u32,
    ms: Seq<Member>,
    flag: u8,
)
    requires
        class == 6 && (version == 3 || version == 4) || class == 11 && 0 <= version < 16,
        ms.len() <= 0xFFFF,
        forall|i: int| 0 <= i < ms.len() ==> (#[trigger] ms[i]).wf(offset_bytes(size)),
    ensures
        reads_as(
            compound_bytes(class, version, size, ms, flag),
            DatatypeModel::Compound { size, members: models(ms) },
        ),
{
    let e = compound_bytes(class, version, size, ms, flag);
    let t = DatatypeModel::Compound { size, members: models(ms) };
    assert forall|rest: Seq<u8>|
        #[trigger] datatype::parsed(e + rest) == Ok::<(DatatypeModel, int), ErrorModel>(
            (t, e.len() as int),
        ) by {
        lemma_compound(e + rest, class, version, size, ms, flag, rest);
    }
}

#[verifier::spinoff_prover]
#[verifier::rlimit(40)]
proof fn lemma_compound(
    d: Seq<u8>,
    class: int,
    version: int,
    size: u32,
    ms: Seq<Member>,
    flag: u8,
    rest: Seq<u8>,
)
    requires
        class == 6 && (version == 3 || version == 4) || class == 11 && 0 <= version < 16,
        ms.len() <= 0xFFFF,
        forall|i: int| 0 <= i < ms.len() ==> (#[trigger] ms[i]).wf(offset_bytes(size)),
        d == compound_bytes(class, version, size, ms, flag) + rest,
    ensures
        datatype::parsed(d) == Ok::<(DatatypeModel, int), ErrorModel>(
            (
                DatatypeModel::Compound { size, members: models(ms) },
                compound_bytes(class, version, size, ms, flag).len() as int,
            ),
        ),
{
    let flags = count_flags(ms.len(), flag);
    places::lemma_field_len(ms.len() as int, 2);
    let front = front_bytes(class, version, flags, size);
    let body = members_bytes(ms, offset_bytes(size), 0);
    places::lemma_whole(d);
    places::lemma_parts(d, 0, front + body, rest);
    places::lemma_parts(d, 0, front, body);
    lemma_front(d, class, version, flags, size);
    lemma_count(d, ms.len(), flag);
    lemma_members(d, 8, ms, offset_bytes(size), 0);
    assert(models(ms).take(0) =~= Seq::<CompoundMemberModel>::empty());
}

// ---- Enumerations ----

/// The names of the members from the `k`-th on, filled up to a multiple of eight bytes each before
/// version 3.
pub open spec fn names_bytes(ms: Seq<EnumMemberModel>, version: int, k: int) -> Seq<u8>
    decreases ms.len() - k,
{
    if 0 <= k < ms.len() {
        terminated(ms[k].name, version < 3) + names_bytes(ms, version, k + 1)
    } else {
        Seq::empty()
    }
}

/// The values of the members from the `k`-th on.
pub open spec fn values_bytes(ms: Seq<EnumMemberModel>, k: int) -> Seq<u8>
    decreases ms.len() - k,
{
    if 0 <= k < ms.len() {
        ms[k].value + values_bytes(ms, k + 1)
    } else {
        Seq::empty()
    }
}

/// The message of an enumeration: the base type, all names, all values.
pub open spec fn enumeration_bytes(
    version: int,
    size: u32,
    base: Seq<u8>,
    ms: Seq<EnumMemberModel>,
    flag: u8,
) -> Seq<u8> {
    front_bytes(8, version, count_flags(ms.len(), flag), size) + (base + (names_bytes(
        ms,
        version,
        0,
    ) + values_bytes(ms, 0)))
}

spec fn names_of(ms: Seq<EnumMemberModel>) -> Seq<Seq<char>> {
    Seq::new(ms.len(), |i: int| ms[i].name)
}

proof fn lemma_names(d: Seq<u8>, pos: int, ms: Seq<EnumMemberModel>, version: u8, k: int)
    requires
        0 <= k <= ms.len(),
        forall|i: int| 0 <= i < ms.len() ==> datatype::is_name((#[trigger] ms[i]).name),
        places::stands(d, pos, names_bytes(ms, version as int, k)),
    ensures
        datatype::names_at(d, pos, version, (ms.len() - k) as nat, names_of(ms).take(k)) == Ok::<
            (Seq<Seq<char>>, int),
            ErrorModel,
        >((names_of(ms), pos + names_bytes(ms, version as int, k).len())),
    decreases ms.len() - k,
{
    let all = names_of(ms);
    if k == ms.len() {
        assert(all.take(k) =~= all);
    } else {
        let b = terminated(ms[k].name, version < 3);
        places::lemma_parts(d, pos, b, names_bytes(ms, version as int, k + 1));
        lemma_name(d, pos, ms[k].name, version < 3);
        assert(all.take(k).push(ms[k].name) =~= all.take(k + 1));
        lemma_names(d, pos + b.len(), ms, version, k + 1);
    }
}

proof fn lemma_values(d: Seq<u8>, pos: int, ms: Seq<EnumMemberModel>, size: int, k: int)
    requires
        0 <= k <= ms.len(),
        forall|i: int| 0 <= i < ms.len() ==> (#[trigger] ms[i]).value.len() == size,
        places::stands(d, pos, values_bytes(ms, k)),
    ensures
        datatype::values_at(d, pos, size, names_of(ms), ms.take(k)) == Ok::<
            (Seq<EnumMemberModel>, int),
            ErrorModel,
        >((ms, pos + values_bytes(ms, k).len())),
    decreases ms.len() - k,
{
    if k == ms.len() {
        assert(ms.take(k) =~= ms);
    } else {
        places::lemma_parts(d, pos, ms[k].value, values_bytes(ms, k + 1));
        assert(ms.take(k).push(ms[k]) =~= ms.take(k + 1));
        lemma_values(d, pos + size, ms, size, k + 1);
    }
}

/// An enumeration of any version is read as its members, each with its name and its value, over
/// its base type.
#[verifier::rlimit(30)]
pub proof fn law_enumeration_is_read_back(
    version: int,
    size: u32,
    base: Seq<u8>,
    base_type: DatatypeModel,
    ms: Seq<EnumMemberModel>,
    flag: u8,
)
    requires
        0 <= version < 16,
        ms.len() <= 0xFFFF,
        reads_as(base, base_type),
        forall|i: int|
            0 <= i < ms.len() ==> datatype::is_name((#[trigger] ms[i]).name)
                && ms[i].value.len() == base_type.size(),
    ensures
        reads_as(
            enumeration_bytes(version, size, base, ms, flag),
            DatatypeModel::Enumeration { size, base_type: Box::new(base_type), members: ms },
        ),
{
    let e = enumeration_bytes(version, size, base, ms, flag);
    let t = DatatypeModel::Enumeration { size, base_type: Box::new(base_type), members: ms };
    assert forall|rest: Seq<u8>|
        #[trigger] datatype::parsed(e + rest) == Ok::<(DatatypeModel, int), ErrorModel>(
            (t, e.len() as int),
        ) by {
        lemma_enumeration(e + rest, version, size, base, base_type, ms, flag, rest);
    }
}

#[verifier::spinoff_prover]
#[verifier::rlimit(40)]
proof fn lemma_enumeration(
    d: Seq<u8>,
    version: int,
    size: u32,
    base: Seq<u8>,
    base_type: DatatypeModel,
    ms: Seq<EnumMemberModel>,
    flag: u8,
    rest: Seq<u8>,
)
    requires
        0 <= version < 16,
        ms.len() <= 0xFFFF,
        reads_as(base, base_type),
        forall|i: int|
            0 <= i < ms.len() ==> datatype::is_name((#[trigger] ms[i]).name)
                && ms[i].value.len() == base_type.size(),
        d == enumeration_bytes(version, size, base, ms, flag) + rest,
    ensures
        datatype::parsed(d) == Ok::<(DatatypeModel, int), ErrorModel>(
            (
                DatatypeModel::Enumeration { size, base_type: Box::new(base_type), members: ms },
                enumeration_bytes(version, size, base, ms, flag).len() as int,
            ),
        ),
{
    let flags = count_flags(ms.len(), flag);
    places::lemma_field_len(ms.len() as int, 2);
    let front = front_bytes(8, version, flags, size);
    let names = names_bytes(ms, version, 0);
    let values = values_bytes(ms, 0);
    places::lemma_whole(d);
    places::lemma_parts(d, 0, front + (base + (names + values)), rest);
    places::lemma_parts(d, 0, front, base + (names + values));
    lemma_front(d, 8, version, flags, size);
    lemma_count(d, ms.len(), flag);
    places::lemma_parts(d, 8, base, names + values);
    places::lemma_parts(d, 8 + base.len() as int, names, values);
    lemma_type_at(d, 8, base, base_type);
    lemma_names(d, 8 + base.len() as int, ms, version as u8, 0);
    lemma_values(d, 8 + base.len() as int + names.len(), ms, base_type.size() as int, 0);
    assert(names_of(ms).take(0) =~= Seq::<Seq<char>>::empty());
    assert(ms.take(0) =~= Seq::<EnumMemberModel>::empty());
}

// ---- Arrays ----

/// The dimensions from the `k`-th on.
pub open spec fn dimensions_bytes(dims: Seq<u32>, k: int) -> Seq<u8>
    decreases dims.len() - k,
{
    if 0 <= k < dims.len() {
        places::field(dims[k] as int, 4) + dimensions_bytes(dims, k + 1)
    } else {
        Seq::empty()
    }
}

/// The message of an array of version 3: the number of dimensions, the dimensions, the base type.
/// In version 2 three bytes stand behind the number of dimensions, and four more for each of them
/// behind the dimensions.
pub open spec fn array_bytes(
    version: int,
    size: u32,
    flags: Seq<u8>,
    dims: Seq<u32>,
    reserved: Seq<u8>,
    permutations: Seq<u8>,
    base: Seq<u8>,
) -> Seq<u8> {
    front_bytes(10, version, flags, size) + ((seq![dims.len() as u8] + reserved) + (
    dimensions_bytes(dims, 0) + (permutations + base)))
}

pub proof fn lemma_dimensions(d: Seq<u8>, pos: int, dims: Seq<u32>, k: int)
    requires
        0 <= k <= dims.len(),
        places::stands(d, pos, dimensions_bytes(dims, k)),
    ensures
        dimensions_bytes(dims, k).len() == 4 * (dims.len() - k),
        forall|i: int|
            k <= i < dims.len() ==> #[trigger] crate::bytes::u32_at(d, pos + 4 * (i - k))
                == dims[i],
    decreases dims.len() - k,
{
    if k < dims.len() {
        let b = places::field(dims[k] as int, 4);
        places::lemma_field_len(dims[k] as int, 4);
        places::lemma_parts(d, pos, b, dimensions_bytes(dims, k + 1));
        places::lemma_u32(d, pos, dims[k] as int);
        lemma_dimensions(d, pos + 4, dims, k + 1);
        assert forall|i: int| k <= i < dims.len() implies #[trigger] crate::bytes::u32_at(
            d,
            pos + 4 * (i - k),
        ) == dims[i] by {
            if i > k {
                let q = pos + 4 + 4 * (i - (k + 1));
                assert(crate::bytes::u32_at(d, q) == dims[i]);
                assert(q == pos + 4 * (i - k));
            }
        }
    }
}

/// An array of version 2 or 3 is read as its dimensions, in their order, over its base type.
#[verifier::rlimit(30)]
pub proof fn law_array_is_read_back(
    version: int,
    size: u32,
    flags: Seq<u8>,
    dims: Seq<u32>,
    reserved: Seq<u8>,
    permutations: Seq<u8>,
    base: Seq<u8>,
    base_type: DatatypeModel,
)
    requires
        version == 2 && reserved.len() == 3 && permutations.len() == 4 * dims.len() || version == 3
            && reserved.len() == 0 && permutations.len() == 0,
        flags.len() == 3,
        dims.len() <= 255,
        reads_as(base, base_type),
    ensures
        reads_as(
            array_bytes(version, size, flags, dims, reserved, permutations, base),
            DatatypeModel::Array { base_type: Box::new(base_type), dimensions: dims },
        ),
{
    let e = array_bytes(version, size, flags, dims, reserved, permutations, base);
    let t = DatatypeModel::Array { base_type: Box::new(base_type), dimensions: dims };
    assert forall|rest: Seq<u8>|
        #[trigger] datatype::parsed(e + rest) == Ok::<(DatatypeModel, int), ErrorModel>(
            (t, e.len() as int),
        ) by {
        lemma_array(
            e + rest,
            version,
            size,
            flags,
            dims,
            reserved,
            permutations,
            base,
            base_type,
            rest,
        );
    }
}

/// What is read takes at least as many bytes as its header.
proof fn lemma_not_empty(e: Seq<u8>, t: DatatypeModel)
    requires
        reads_as(e, t),
    ensures
        e.len() >= 8,
{
    let none = Seq::<u8>::empty();
    assert(datatype::parsed(e + none) == Ok::<(DatatypeModel, int), ErrorModel>(
        (t, e.len() as int),
    ));
    assert(e + none =~= e);
}

#[verifier::spinoff_prover]
#[verifier::rlimit(40)]
proof fn lemma_array_body(
    d: Seq<u8>,
    reserved: int,
    perm: int,
    dims: Seq<u32>,
    base_type: DatatypeModel,
    used: int,
)
    requires
        reserved == 3 && perm == 4 || reserved == 0 && perm == 0,
        dims.len() <= 255,
        d.len() >= 12,
        d[8] == dims.len(),
        places::stands(d, 9 + reserved, dimensions_bytes(dims, 0)),
        9 + reserved + dims.len() * 4 + dims.len() * perm <= d.len(),
        datatype::parsed(
            d.subrange(
                9 + reserved + dims.len() * 4 + dims.len() * perm,
                d.len() as int,
            ),
        ) == Ok::<(DatatypeModel, int), ErrorModel>((base_type, used)),
    ensures
        datatype::parsed_array(d, reserved, perm) == Ok::<(DatatypeModel, int), ErrorModel>(
            (
                DatatypeModel::Array { base_type: Box::new(base_type), dimensions: dims },
                9 + reserved + dims.len() * 4 + dims.len() * perm + used,
            ),
        ),
{
    let n = dims.len() as int;
    lemma_dimensions(d, 9 + reserved, dims, 0);
    let read = Seq::new(n as nat, |i: int| crate::bytes::u32_at(d, 9 + reserved + 4 * i));
    assert forall|i: int| 0 <= i < n implies read[i] == dims[i] by {
        assert(crate::bytes::u32_at(d, 9 + reserved + 4 * (i - 0)) == dims[i]);
    }
    assert(read =~= dims);
    assert(d[8] as int * perm == dims.len() * perm);
}

#[verifier::spinoff_prover]
#[verifier::rlimit(40)]
proof fn lemma_array_class(d: Seq<u8>, version: int)
    requires
        d.len() >= 8,
        d[0] % 16 == 10,
        d[0] / 16 == version,
    ensures
        version == 2 ==> datatype::parsed(d) == datatype::parsed_array(d, 3, 4),
        version == 3 ==> datatype::parsed(d) == datatype::parsed_array(d, 0, 0),
{
}

proof fn lemma_array_layout(
    d: Seq<u8>,
    version: int,
    size: u32,
    flags: Seq<u8>,
    dims: Seq<u32>,
    reserved: Seq<u8>,
    permutations: Seq<u8>,
    base: Seq<u8>,
    rest: Seq<u8>,
)
    requires
        version == 2 || version == 3,
        flags.len() == 3,
        dims.len() <= 255,
        d == array_bytes(version, size, flags, dims, reserved, permutations, base) + rest,
    ensures
        d.len() >= 8,
        d[0] % 16 == 10,
        d[0] / 16 == version,
        d[8] == dims.len(),
        places::stands(d, 9 + reserved.len() as int, dimensions_bytes(dims, 0)),
        places::stands(d, 9 + reserved.len() as int + 4 * dims.len() + permutations.len(), base),
        array_bytes(version, size, flags, dims, reserved, permutations, base).len() == 9
            + reserved.len() + 4 * dims.len() + permutations.len() + base.len(),
{
    let front = front_bytes(10, version, flags, size);
    let head = seq![dims.len() as u8] + reserved;
    let all = dimensions_bytes(dims, 0);
    let tail = permutations + base;
    places::lemma_whole(d);
    places::lemma_parts(d, 0, front + (head + (all + tail)), rest);
    places::lemma_parts(d, 0, front, head + (all + tail));
    lemma_front(d, 10, version, flags, size);
    places::lemma_parts(d, 8, head, all + tail);
    places::lemma_byte(d, 8, head, 0);
    let p = 8 + head.len() as int;
    places::lemma_parts(d, p, all, tail);
    lemma_dimensions(d, p, dims, 0);
    places::lemma_parts(d, p + all.len(), permutations, base);
}

#[verifier::spinoff_prover]
#[verifier::rlimit(40)]
proof fn lemma_array(
    d: Seq<u8>,
    version: int,
    size: u32,
    flags: Seq<u8>,
    dims: Seq<u32>,
    reserved: Seq<u8>,
    permutations: Seq<u8>,
    base: Seq<u8>,
    base_type: DatatypeModel,
    rest: Seq<u8>,
)
    requires
        version == 2 && reserved.len() == 3 && permutations.len() == 4 * dims.len() || version == 3
            && reserved.len() == 0 && permutations.len() == 0,
        flags.len() == 3,
        dims.len() <= 255,
        reads_as(base, base_type),
        d == array_bytes(version, size, flags, dims, reserved, permutations, base) + rest,
    ensures
        datatype::parsed(d) == Ok::<(DatatypeModel, int), ErrorModel>(
            (
                DatatypeModel::Array { base_type: Box::new(base_type), dimensions: dims },
                array_bytes(
                    version,
                    size,
                    flags,
                    dims,
                    reserved,
                    permutations,
                    base,
                ).len() as int,
            ),
        ),
{
    lemma_array_layout(d, version, size, flags, dims, reserved, permutations, base, rest);
    lemma_array_class(d, version);
    lemma_not_empty(base, base_type);
    let n = dims.len() as int;
    let q = 9 + reserved.len() + 4 * n + permutations.len();
    lemma_type_at(d, q, base, base_type);
    if version == 2 {
        assert(q == 9 + 3 + n * 4 + n * 4);
        lemma_array_body(d, 3, 4, dims, base_type, base.len() as int);
    } else {
        assert(n * 0 == 0) by (nonlinear_arith);
        assert(q == 9 + 0 + n * 4 + n * 0);
        lemma_array_body(d, 0, 0, dims, base_type, base.len() as int);
    }
}

// ---- Variable length ----

/// The message of a sequence of variable length, or of a string of variable length: in the latter
/// the padding and the character set stand in the flags.
pub open spec fn variable_bytes(
    version: int,
    size: u32,
    flags: Seq<u8>,
    base: Seq<u8>,
) -> Seq<u8> {
    front_bytes(9, version, flags, size) + base
}

#[verifier::spinoff_prover]
#[verifier::rlimit(40)]
proof fn lemma_variable(
    d: Seq<u8>,
    version: int,
    size: u32,
    flags: Seq<u8>,
    base: Seq<u8>,
    base_type: DatatypeModel,
    rest: Seq<u8>,
)
    requires
        0 <= version < 16,
        flags.len() == 3,
        flags[0] % 16 != 1,
        reads_as(base, base_type),
        d == variable_bytes(version, size, flags, base) + rest,
    ensures
        datatype::parsed(d) == Ok::<(DatatypeModel, int), ErrorModel>(
            (
                DatatypeModel::VariableLength {
                    is_string: false,
                    padding: None,
                    charset: None,
                    base_type: Box::new(base_type),
                },
                variable_bytes(version, size, flags, base).len() as int,
            ),
        ),
{
    let front = front_bytes(9, version, flags, size);
    places::lemma_whole(d);
    places::lemma_parts(d, 0, front + base, rest);
    places::lemma_parts(d, 0, front, base);
    lemma_front(d, 9, version, flags, size);
    places::lemma_byte(d, 1, flags, 0);
    lemma_type_at(d, 8, base, base_type);
}

/// A sequence of variable length is read as one over its base type.
#[verifier::rlimit(30)]
pub proof fn law_variable_length_is_read_back(
    version: int,
    size: u32,
    flags: Seq<u8>,
    base: Seq<u8>,
    base_type: DatatypeModel,
)
    requires
        0 <= version < 16,
        flags.len() == 3,
        flags[0] % 16 != 1,
        reads_as(base, base_type),
    ensures
        reads_as(
            variable_bytes(version, size, flags, base),
            DatatypeModel::VariableLength {
                is_string: false,
                padding: None,
                charset: None,
                base_type: Box::new(base_type),
            },
        ),
{
    let e = variable_bytes(version, size, flags, base);
    let t = DatatypeModel::VariableLength {
        is_string: false,
        padding: None,
        charset: None,
        base_type: Box::new(base_type),
    };
    assert forall|rest: Seq<u8>|
        #[trigger] datatype::parsed(e + rest) == Ok::<(DatatypeModel, int), ErrorModel>(
            (t, e.len() as int),
        ) by {
        lemma_variable(e + rest, version, size, flags, base, base_type, rest);
    }
}

} // verus!

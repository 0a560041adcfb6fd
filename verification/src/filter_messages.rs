//! What is written in filter pipeline messages is read from them.

use vstd::prelude::*;
use vstd::utf8::*;
use crate::bytes;
use crate::error::ErrorModel;
use crate::filter_pipeline::{self, FilterModel, PipelineModel};
use crate::places;

verus! {

/// The values of client data from the `k`-th on, four bytes each.
pub open spec fn values_bytes(values: Seq<u32>, k: int) -> Seq<u8>
    decreases values.len() - k,
{
    if 0 <= k < values.len() {
        places::field(values[k] as int, 4) + values_bytes(values, k + 1)
    } else {
        Seq::empty()
    }
}

proof fn lemma_values(d: Seq<u8>, p: int, values: Seq<u32>, k: int)
    requires
        0 <= k <= values.len(),
        places::stands(d, p, values_bytes(values, k)),
    ensures
        values_bytes(values, k).len() == 4 * (values.len() - k),
        forall|i: int|
            k <= i < values.len() ==> bytes::u32_at(d, p + 4 * (i - k)) == #[trigger] values[i],
    decreases values.len() - k,
{
    if k < values.len() {
        let a = places::field(values[k] as int, 4);
        let b = values_bytes(values, k + 1);
        places::lemma_field_len(values[k] as int, 4);
        places::lemma_parts(d, p, a, b);
        places::lemma_u32(d, p, values[k] as int);
        lemma_values(d, p + 4, values, k + 1);
        assert forall|i: int| k <= i < values.len() implies bytes::u32_at(d, p + 4 * (i - k))
            == #[trigger] values[i] by {
            if i > k {
                assert(bytes::u32_at(d, p + 4 + 4 * (i - (k + 1))) == values[i]);
                assert(p + 4 + 4 * (i - (k + 1)) == p + 4 * (i - k));
            }
        }
    }
}

/// The name of a filter and `fill` zero bytes behind it.
pub open spec fn named(f: FilterModel, fill: nat) -> Seq<u8> {
    match f.name {
        Some(name) => encode_utf8(name) + places::zeros(fill as int),
        None => Seq::empty(),
    }
}

/// The number of bytes that lead to the next multiple of eight.
pub open spec fn to_eight(n: int) -> int {
    (8 - n % 8) % 8
}

/// A filter: its ID, the length of its name, its flags, the number of values, the name, and the
/// values. In version 1 the name and the values are filled up to a multiple of eight bytes. In
/// version 2 they are not, and only filters whose ID is 256 or more have a name and its length.
pub open spec fn filter_bytes(f: FilterModel, fill: nat, version: u8) -> Seq<u8> {
    let name = named(f, fill);
    let n = f.client_data.len() as int;
    places::field(f.filter_id as int, 2) + ((if version == 1 || f.filter_id >= 256 {
        places::field(name.len() as int, 2)
    } else {
        Seq::empty()
    }) + (places::field(f.flags as int, 2) + (places::field(n, 2) + (name + (places::zeros(
        if version == 1 {
            to_eight(name.len() as int)
        } else {
            0
        },
    ) + (values_bytes(f.client_data, 0) + places::zeros(
        if version == 1 {
            4 * (n % 2)
        } else {
            0
        },
    )))))))
}

/// Whether a message of the given version has room for a filter.
pub open spec fn is_filter(f: FilterModel, fill: nat, version: u8) -> bool {
    &&& f.client_data.len() <= 0xFFFF
    &&& named(f, fill).len() <= 0xFFFF
    &&& version == 2 && f.filter_id < 256 ==> f.name is None
    &&& f.name matches Some(name) ==> {
        &&& encode_utf8(name).len() + fill > 0
        &&& forall|i: int| 0 <= i < name.len() ==> name[i] != '\0'
    }
}

proof fn lemma_named(f: FilterModel, fill: nat, version: u8)
    requires
        is_filter(f, fill, version),
        f.name is Some,
    ensures
        filter_pipeline::name_of(named(f, fill)) == f.name->0,
{
    let name = f.name->0;
    let b = encode_utf8(name);
    let all = named(f, fill);
    crate::text::lemma_no_zero_byte(name);
    assert forall|k: int| 0 <= k < b.len() implies all[k] != 0 by {
        assert(all[k] == b[k]);
    }
    crate::text::lemma_zero_from_is(all, 0, b.len() as int);
    assert(all.subrange(0, b.len() as int) =~= b);
    encode_utf8_valid_utf8(name);
    encode_utf8_decode_utf8(name);
}

#[verifier::spinoff_prover]
#[verifier::rlimit(60)]
proof fn lemma_filter(d: Seq<u8>, p: int, f: FilterModel, fill: nat, version: u8)
    requires
        version == 1 || version == 2,
        is_filter(f, fill, version),
        places::stands(d, p, filter_bytes(f, fill, version)),
    ensures
        filter_pipeline::filter_at(d, p, version) == Ok::<(FilterModel, int), ErrorModel>(
            (f, p + filter_bytes(f, fill, version).len()),
        ),
{
    let name = named(f, fill);
    let n = f.client_data.len() as int;
    let id = places::field(f.filter_id as int, 2);
    let size = if version == 1 || f.filter_id >= 256 {
        places::field(name.len() as int, 2)
    } else {
        Seq::empty()
    };
    let flags = places::field(f.flags as int, 2);
    let count = places::field(n, 2);
    let gap = places::zeros(
        if version == 1 {
            to_eight(name.len() as int)
        } else {
            0
        },
    );
    let vals = values_bytes(f.client_data, 0);
    let tail = places::zeros(
        if version == 1 {
            4 * (n % 2)
        } else {
            0
        },
    );
    places::lemma_field_len(f.filter_id as int, 2);
    places::lemma_field_len(name.len() as int, 2);
    places::lemma_field_len(f.flags as int, 2);
    places::lemma_field_len(n, 2);
    let r5 = vals + tail;
    let r4 = gap + r5;
    let r3 = name + r4;
    let r2 = count + r3;
    let r1 = flags + r2;
    let q = p + 2 + size.len();
    places::lemma_parts(d, p, id, size + r1);
    places::lemma_u16(d, p, f.filter_id as int);
    places::lemma_parts(d, p + 2, size, r1);
    if version == 1 || f.filter_id >= 256 {
        places::lemma_u16(d, p + 2, name.len() as int);
    }
    places::lemma_parts(d, q, flags, r2);
    places::lemma_u16(d, q, f.flags as int);
    places::lemma_parts(d, q + 2, count, r3);
    places::lemma_u16(d, q + 2, n);
    places::lemma_parts(d, q + 4, name, r4);
    let g = q + 4 + name.len() as int;
    places::lemma_parts(d, g, gap, r5);
    let v = g + gap.len() as int;
    places::lemma_parts(d, v, vals, tail);
    lemma_values(d, v, f.client_data, 0);
    assert(filter_pipeline::client_data_at(d, v, n) =~= f.client_data) by {
        assert forall|i: int| 0 <= i < n implies filter_pipeline::client_data_at(d, v, n)[i]
            == f.client_data[i] by {
            assert(bytes::u32_at(d, v + 4 * (i - 0)) == f.client_data[i]);
        }
    }
    assert(filter_pipeline::name_at(d, q + 4, name.len() as int) == f.name) by {
        if f.name is Some {
            lemma_named(f, fill, version);
            assert(name.len() > 0);
        }
    }
    if version == 1 {
        let l = name.len() as int;
        assert(crate::utils::padded8(l) == l + to_eight(l));
    }
}

/// The filters from the `k`-th on.
pub open spec fn filters_bytes(fs: Seq<FilterModel>, fills: Seq<nat>, k: int, version: u8) -> Seq<u8>
    decreases fs.len() - k,
{
    if 0 <= k < fs.len() {
        filter_bytes(fs[k], fills[k], version) + filters_bytes(fs, fills, k + 1, version)
    } else {
        Seq::empty()
    }
}

proof fn lemma_filters(
    d: Seq<u8>,
    p: int,
    fs: Seq<FilterModel>,
    fills: Seq<nat>,
    k: int,
    version: u8,
)
    requires
        version == 1 || version == 2,
        0 <= k <= fs.len(),
        fills.len() == fs.len(),
        forall|i: int| 0 <= i < fs.len() ==> is_filter(#[trigger] fs[i], fills[i], version),
        places::stands(d, p, filters_bytes(fs, fills, k, version)),
    ensures
        filter_pipeline::filters_at(d, p, (fs.len() - k) as nat, version, fs.take(k)) == Ok::<
            Seq<FilterModel>,
            ErrorModel,
        >(fs),
    decreases fs.len() - k,
{
    if k < fs.len() {
        let a = filter_bytes(fs[k], fills[k], version);
        assert(is_filter(fs[k], fills[k], version));
        places::lemma_parts(d, p, a, filters_bytes(fs, fills, k + 1, version));
        lemma_filter(d, p, fs[k], fills[k], version);
        lemma_filters(d, p + a.len(), fs, fills, k + 1, version);
        assert(fs.take(k).push(fs[k]) =~= fs.take(k + 1));
    } else {
        assert(fs.take(k) =~= fs);
    }
}

/// A filter pipeline is read as what was written in its message: the version, the number of filters,
/// in version 1 six reserved bytes, and the filters in their order.
pub proof fn law_pipeline_is_read_back(
    m: PipelineModel,
    reserved: Seq<u8>,
    fills: Seq<nat>,
    rest: Seq<u8>,
)
    requires
        m.version == 1 || m.version == 2,
        m.filters.len() <= 255,
        fills.len() == m.filters.len(),
        forall|i: int|
            0 <= i < m.filters.len() ==> is_filter(#[trigger] m.filters[i], fills[i], m.version),
        reserved.len() == if m.version == 1 {
            6int
        } else {
            0
        },
    ensures
        filter_pipeline::pipeline_of(
            (seq![m.version, m.filters.len() as u8] + (reserved + filters_bytes(
                m.filters,
                fills,
                0,
                m.version,
            ))) + rest,
        ) == Ok::<PipelineModel, ErrorModel>(m),
{
    let head = seq![m.version, m.filters.len() as u8];
    let list = filters_bytes(m.filters, fills, 0, m.version);
    let d = (head + (reserved + list)) + rest;
    places::lemma_whole(d);
    places::lemma_parts(d, 0, head + (reserved + list), rest);
    places::lemma_parts(d, 0, head, reserved + list);
    places::lemma_byte(d, 0, head, 0);
    places::lemma_byte(d, 0, head, 1);
    places::lemma_parts(d, 2, reserved, list);
    lemma_filters(d, 2 + reserved.len() as int, m.filters, fills, 0, m.version);
    assert(m.filters.take(0) =~= Seq::<FilterModel>::empty());
}

/// The IDs of the filters.
pub proof fn law_filter_ids()
    ensures
        filter_pipeline::FILTER_DEFLATE == 1,
        filter_pipeline::FILTER_SHUFFLE == 2,
        filter_pipeline::FILTER_FLETCHER32 == 3,
        filter_pipeline::FILTER_SZIP == 4,
        filter_pipeline::FILTER_NBIT == 5,
        filter_pipeline::FILTER_SCALEOFFSET == 6,
{
}

} // verus!

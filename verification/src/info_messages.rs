//! What is written in the messages that describe a group or a data set is read from them.

use vstd::prelude::*;
use crate::attribute_info::{self, AttributeInfoMessage};
use crate::bytes;
use crate::data_layout::{self, DataLayoutModel};
use crate::error::ErrorModel;
use crate::group_info::{self, GroupInfoMessage};
use crate::link_info::{self, LinkInfoMessage};
use crate::places;

verus! {

// ---- Addresses ----

/// Whether an address can be read from a field of the given width. A single byte is too narrow to
/// tell that an address is undefined.
pub open spec fn is_defined_address(a: Option<u64>, os: u8) -> bool {
    &&& crate::utils::is_width(os)
    &&& places::is_address(a, os)
    &&& a is None ==> os > 1
}

proof fn lemma_defined(d: Seq<u8>, p: int, a: Option<u64>, os: u8)
    requires
        places::stands(d, p, places::address(a, os)),
        is_defined_address(a, os),
    ensures
        crate::utils::defined_at(d, p, os) == Ok::<Option<u64>, ErrorModel>(a),
        places::address(a, os).len() == os,
        p + os <= d.len(),
{
    places::lemma_address(d, p, a, os);
    bytes::lemma_pow256_values();
    match a {
        Some(v) => {
            places::lemma_word(d, p, v as int, os);
        },
        None => {
            assert(d[p] == 0xFF && d[p + 1] == 0xFF);
            if os >= 4 {
                assert(d[p + 2] == 0xFF && d[p + 3] == 0xFF);
            }
            if os == 8 {
                assert(d[p + 4] == 0xFF && d[p + 5] == 0xFF && d[p + 6] == 0xFF && d[p + 7]
                    == 0xFF);
            }
        },
    }
}

/// The addresses of a heap, of an index by name and, if there is one, of an index by order.
pub open spec fn index_bytes(
    heap: Option<u64>,
    names: Option<u64>,
    orders: Option<u64>,
    ordered: bool,
    os: u8,
) -> Seq<u8> {
    places::address(heap, os) + (places::address(names, os) + if ordered {
        places::address(orders, os)
    } else {
        Seq::empty()
    })
}

proof fn lemma_index(
    d: Seq<u8>,
    p: int,
    heap: Option<u64>,
    names: Option<u64>,
    orders: Option<u64>,
    ordered: bool,
    os: u8,
)
    requires
        is_defined_address(heap, os),
        is_defined_address(names, os),
        is_defined_address(orders, os),
        places::stands(d, p, index_bytes(heap, names, orders, ordered, os)),
    ensures
        crate::utils::defined_at(d, p, os) == Ok::<Option<u64>, ErrorModel>(heap),
        crate::utils::defined_at(d, p + os, os) == Ok::<Option<u64>, ErrorModel>(names),
        ordered ==> crate::utils::defined_at(d, p + 2 * os, os) == Ok::<Option<u64>, ErrorModel>(
            orders,
        ),
{
    let a = places::address(heap, os);
    let b = places::address(names, os);
    let c = if ordered {
        places::address(orders, os)
    } else {
        Seq::empty()
    };
    places::lemma_parts(d, p, a, b + c);
    lemma_defined(d, p, heap, os);
    places::lemma_parts(d, p + os, b, c);
    lemma_defined(d, p + os, names, os);
    if ordered {
        lemma_defined(d, p + 2 * os, orders, os);
    }
}

// ---- Links and attributes ----

/// The flags of a message: the two low bits say what is there, and the others can be any.
pub open spec fn flag_byte(first: bool, second: bool, high: u8) -> u8 {
    ((if first {
        1int
    } else {
        0
    }) + (if second {
        2int
    } else {
        0
    }) + 4 * (high % 64)) as u8
}

proof fn lemma_flag(first: bool, second: bool, high: u8)
    ensures
        flag_byte(first, second, high) % 2 == 1 <==> first,
        flag_byte(first, second, high) / 2 % 2 == 1 <==> second,
{
}

/// A link info message: version 0, flags, the largest number of a link if links are numbered, the
/// addresses.
pub open spec fn link_info_bytes(m: LinkInfoMessage, ordered: bool, high: u8, os: u8) -> Seq<u8> {
    seq![0u8, flag_byte(m.max_creation_order is Some, ordered, high)] + ((match m.max_creation_order {
        Some(n) => places::field(n as int, 8),
        None => Seq::empty(),
    }) + index_bytes(
        m.fractal_heap_address,
        m.btree_name_index_address,
        m.btree_creation_order_address,
        ordered,
        os,
    ))
}

/// A link info message is read as what was written in it, whatever stands behind it.
#[verifier::spinoff_prover]
#[verifier::rlimit(40)]
pub proof fn law_link_info_is_read_back(
    m: LinkInfoMessage,
    ordered: bool,
    high: u8,
    rest: Seq<u8>,
    os: u8,
)
    requires
        is_defined_address(m.fractal_heap_address, os),
        is_defined_address(m.btree_name_index_address, os),
        is_defined_address(m.btree_creation_order_address, os),
        !ordered ==> m.btree_creation_order_address is None,
    ensures
        link_info::info_of(link_info_bytes(m, ordered, high, os) + rest, os) == Ok::<
            LinkInfoMessage,
            ErrorModel,
        >(m),
{
    let whole = link_info_bytes(m, ordered, high, os);
    let d = whole + rest;
    let front = seq![0u8, flag_byte(m.max_creation_order is Some, ordered, high)];
    let number = match m.max_creation_order {
        Some(n) => places::field(n as int, 8),
        None => Seq::empty(),
    };
    let index = index_bytes(
        m.fractal_heap_address,
        m.btree_name_index_address,
        m.btree_creation_order_address,
        ordered,
        os,
    );
    places::lemma_whole(d);
    places::lemma_parts(d, 0, front + (number + index), rest);
    places::lemma_parts(d, 0, front, number + index);
    places::lemma_byte(d, 0, front, 0);
    places::lemma_byte(d, 0, front, 1);
    lemma_flag(m.max_creation_order is Some, ordered, high);
    places::lemma_parts(d, 2, number, index);
    if let Some(n) = m.max_creation_order {
        places::lemma_field_len(n as int, 8);
        bytes::lemma_pow256_values();
        places::lemma_word(d, 2, n as int, 8);
    }
    lemma_index(
        d,
        2 + number.len() as int,
        m.fractal_heap_address,
        m.btree_name_index_address,
        m.btree_creation_order_address,
        ordered,
        os,
    );
}

/// An attribute info message: version 0, flags, the largest number of an attribute if attributes
/// are numbered, the addresses.
pub open spec fn attribute_info_bytes(
    m: AttributeInfoMessage,
    ordered: bool,
    high: u8,
    os: u8,
) -> Seq<u8> {
    seq![0u8, flag_byte(m.max_creation_index is Some, ordered, high)] + ((match m.max_creation_index {
        Some(n) => places::field(n as int, 2),
        None => Seq::empty(),
    }) + index_bytes(
        m.fractal_heap_address,
        m.btree_name_index_address,
        m.btree_creation_order_address,
        ordered,
        os,
    ))
}

/// An attribute info message is read as what was written in it, whatever stands behind it.
#[verifier::spinoff_prover]
#[verifier::rlimit(40)]
pub proof fn law_attribute_info_is_read_back(
    m: AttributeInfoMessage,
    ordered: bool,
    high: u8,
    rest: Seq<u8>,
    os: u8,
)
    requires
        is_defined_address(m.fractal_heap_address, os),
        is_defined_address(m.btree_name_index_address, os),
        is_defined_address(m.btree_creation_order_address, os),
        !ordered ==> m.btree_creation_order_address is None,
    ensures
        attribute_info::info_of(attribute_info_bytes(m, ordered, high, os) + rest, os) == Ok::<
            AttributeInfoMessage,
            ErrorModel,
        >(m),
{
    let whole = attribute_info_bytes(m, ordered, high, os);
    let d = whole + rest;
    let front = seq![0u8, flag_byte(m.max_creation_index is Some, ordered, high)];
    let number = match m.max_creation_index {
        Some(n) => places::field(n as int, 2),
        None => Seq::empty(),
    };
    let index = index_bytes(
        m.fractal_heap_address,
        m.btree_name_index_address,
        m.btree_creation_order_address,
        ordered,
        os,
    );
    places::lemma_whole(d);
    places::lemma_parts(d, 0, front + (number + index), rest);
    places::lemma_parts(d, 0, front, number + index);
    places::lemma_byte(d, 0, front, 0);
    places::lemma_byte(d, 0, front, 1);
    lemma_flag(m.max_creation_index is Some, ordered, high);
    places::lemma_parts(d, 2, number, index);
    if let Some(n) = m.max_creation_index {
        places::lemma_field_len(n as int, 2);
        places::lemma_u16(d, 2, n as int);
    }
    lemma_index(
        d,
        2 + number.len() as int,
        m.fractal_heap_address,
        m.btree_name_index_address,
        m.btree_creation_order_address,
        ordered,
        os,
    );
}

// ---- Groups ----

/// Two numbers that are there together or not at all.
pub open spec fn pair_bytes(a: Option<u16>, b: Option<u16>) -> Seq<u8> {
    match (a, b) {
        (Some(x), Some(y)) => places::field(x as int, 2) + places::field(y as int, 2),
        _ => Seq::empty(),
    }
}

/// A group info message: version 0, flags, the numbers of links at which the storage changes, the
/// estimates for new groups.
pub open spec fn group_info_bytes(m: GroupInfoMessage, high: u8) -> Seq<u8> {
    seq![0u8, flag_byte(m.max_compact is Some, m.estimated_num_entries is Some, high)] + (pair_bytes(m.max_compact, m.min_dense) + pair_bytes(
        m.estimated_num_entries,
        m.estimated_name_length,
    ))
}

proof fn lemma_pair(d: Seq<u8>, p: int, a: Option<u16>, b: Option<u16>)
    requires
        a is Some <==> b is Some,
        places::stands(d, p, pair_bytes(a, b)),
    ensures
        group_info::pair_at(d, p, a is Some) == Ok::<(Option<u16>, Option<u16>), ErrorModel>(
            (a, b),
        ),
        pair_bytes(a, b).len() == if a is Some {
            4int
        } else {
            0
        },
{
    if let (Some(x), Some(y)) = (a, b) {
        places::lemma_field_len(x as int, 2);
        places::lemma_field_len(y as int, 2);
        places::lemma_parts(d, p, places::field(x as int, 2), places::field(y as int, 2));
        places::lemma_u16(d, p, x as int);
        places::lemma_u16(d, p + 2, y as int);
    }
}

/// A group info message is read as what was written in it, whatever stands behind it.
#[verifier::rlimit(30)]
pub proof fn law_group_info_is_read_back(m: GroupInfoMessage, high: u8, rest: Seq<u8>)
    requires
        m.max_compact is Some <==> m.min_dense is Some,
        m.estimated_num_entries is Some <==> m.estimated_name_length is Some,
    ensures
        group_info::group_info_of(group_info_bytes(m, high) + rest) == Ok::<
            GroupInfoMessage,
            ErrorModel,
        >(m),
{
    let whole = group_info_bytes(m, high);
    let d = whole + rest;
    let front = seq![
        0u8,
        flag_byte(m.max_compact is Some, m.estimated_num_entries is Some, high),
    ];
    let a = pair_bytes(m.max_compact, m.min_dense);
    let b = pair_bytes(m.estimated_num_entries, m.estimated_name_length);
    places::lemma_whole(d);
    places::lemma_parts(d, 0, front + (a + b), rest);
    places::lemma_parts(d, 0, front, a + b);
    places::lemma_byte(d, 0, front, 0);
    places::lemma_byte(d, 0, front, 1);
    lemma_flag(m.max_compact is Some, m.estimated_num_entries is Some, high);
    places::lemma_parts(d, 2, a, b);
    lemma_pair(d, 2, m.max_compact, m.min_dense);
    lemma_pair(d, 2 + a.len() as int, m.estimated_num_entries, m.estimated_name_length);
}

// ---- Layouts ----

/// A compact layout of version 3 or 4: version, class 0, the size of the data, the data.
pub open spec fn compact_bytes(version: u8, data: Seq<u8>) -> Seq<u8> {
    seq![version, 0u8] + (places::field(data.len() as int, 2) + data)
}

/// A compact layout is read as the data that stand in it.
#[verifier::rlimit(30)]
pub proof fn law_compact_layout_is_read_back(
    version: u8,
    data: Seq<u8>,
    rest: Seq<u8>,
    os: u8,
    ls: u8,
)
    requires
        version == 3 || version == 4,
        data.len() <= 0xFFFF,
    ensures
        data_layout::layout_of(compact_bytes(version, data) + rest, os, ls) == Ok::<
            DataLayoutModel,
            ErrorModel,
        >(DataLayoutModel::Compact { data }),
{
    let d = compact_bytes(version, data) + rest;
    let front = seq![version, 0u8];
    let n = places::field(data.len() as int, 2);
    places::lemma_field_len(data.len() as int, 2);
    places::lemma_whole(d);
    places::lemma_parts(d, 0, front + (n + data), rest);
    places::lemma_parts(d, 0, front, n + data);
    places::lemma_byte(d, 0, front, 0);
    places::lemma_byte(d, 0, front, 1);
    places::lemma_parts(d, 2, n, data);
    places::lemma_u16(d, 2, data.len() as int);
}

/// A contiguous layout of version 3 or 4: version, class 1, the address and the size of the data.
pub open spec fn contiguous_bytes(
    version: u8,
    address: Option<u64>,
    size: u64,
    os: u8,
    ls: u8,
) -> Seq<u8> {
    seq![version, 1u8] + (places::address(address, os) + places::field(size as int, ls as int))
}

/// A contiguous layout is read as the address and the size that stand in it.
#[verifier::rlimit(30)]
pub proof fn law_contiguous_layout_is_read_back(
    version: u8,
    address: Option<u64>,
    size: u64,
    rest: Seq<u8>,
    os: u8,
    ls: u8,
)
    requires
        version == 3 || version == 4,
        crate::utils::is_width(os),
        crate::utils::is_width(ls),
        places::is_address(address, os),
        size < bytes::pow256(ls as nat),
    ensures
        data_layout::layout_of(contiguous_bytes(version, address, size, os, ls) + rest, os, ls)
            == Ok::<DataLayoutModel, ErrorModel>(DataLayoutModel::Contiguous { address, size }),
{
    let d = contiguous_bytes(version, address, size, os, ls) + rest;
    let front = seq![version, 1u8];
    let a = places::address(address, os);
    let n = places::field(size as int, ls as int);
    places::lemma_field_len(size as int, ls as int);
    places::lemma_whole(d);
    places::lemma_parts(d, 0, front + (a + n), rest);
    places::lemma_parts(d, 0, front, a + n);
    places::lemma_byte(d, 0, front, 0);
    places::lemma_byte(d, 0, front, 1);
    places::lemma_parts(d, 2, a, n);
    places::lemma_address(d, 2, address, os);
    places::lemma_word(d, 2 + os, size as int, ls);
}

/// A chunked layout of version 3: version, class 2, the number of dimensions, the address of the
/// tree, the dimensions.
pub open spec fn old_chunked_bytes(address: Option<u64>, dims: Seq<u32>, os: u8) -> Seq<u8> {
    seq![3u8, 2, dims.len() as u8] + (places::address(address, os)
        + crate::datatype_versions::dimensions_bytes(dims, 0))
}

/// A chunked layout of version 3 is read as the address and the dimensions that stand in it.
#[verifier::rlimit(30)]
pub proof fn law_old_chunked_layout_is_read_back(
    address: Option<u64>,
    dims: Seq<u32>,
    rest: Seq<u8>,
    os: u8,
    ls: u8,
)
    requires
        crate::utils::is_width(os),
        places::is_address(address, os),
        dims.len() <= 255,
    ensures
        data_layout::layout_of(old_chunked_bytes(address, dims, os) + rest, os, ls) == Ok::<
            DataLayoutModel,
            ErrorModel,
        >(
            DataLayoutModel::Chunked {
                chunk_dimensions: dims,
                btree_address: address,
                version: 3,
                chunk_index_type: None,
                single_chunk_filtered_size: None,
                single_chunk_filter_mask: None,
            },
        ),
{
    let d = old_chunked_bytes(address, dims, os) + rest;
    let front = seq![3u8, 2, dims.len() as u8];
    let a = places::address(address, os);
    let all = crate::datatype_versions::dimensions_bytes(dims, 0);
    places::lemma_whole(d);
    places::lemma_parts(d, 0, front + (a + all), rest);
    places::lemma_parts(d, 0, front, a + all);
    places::lemma_byte(d, 0, front, 0);
    places::lemma_byte(d, 0, front, 1);
    places::lemma_byte(d, 0, front, 2);
    places::lemma_parts(d, 3, a, all);
    places::lemma_address(d, 3, address, os);
    let p = 3 + os;
    crate::datatype_versions::lemma_dimensions(d, p, dims, 0);
    let read = Seq::new(dims.len(), |i: int| bytes::u32_at(d, p + 4 * i));
    assert forall|i: int| 0 <= i < dims.len() implies read[i] == dims[i] by {
        assert(bytes::u32_at(d, p + 4 * (i - 0)) == dims[i]);
    }
    assert(read =~= dims);
}

/// A chunked layout of version 4: version, class 2, flags, the number of dimensions, their width,
/// the dimensions, the kind of the index, what describes the index, its address.
pub open spec fn chunked_bytes(
    flags: u8,
    dims: Seq<u64>,
    width: u8,
    kind: u8,
    parameters: Seq<u8>,
    address: Option<u64>,
    os: u8,
) -> Seq<u8> {
    seq![4u8, 2, flags, dims.len() as u8, width] + (crate::chunk_tree::offsets_bytes(
        dims,
        0,
        width,
    ) + (seq![kind] + (parameters + places::address(address, os))))
}

/// How many bytes describe an index: the number of bits of a page of a fixed array, the five numbers
/// of an extensible array, node size and percentages of a B-tree.
pub open spec fn parameter_bytes(kind: u8) -> int {
    if kind == 3 {
        1
    } else if kind == 4 {
        5
    } else if kind == 5 {
        6
    } else {
        0
    }
}

proof fn lemma_chunked(
    d: Seq<u8>,
    flags: u8,
    dims: Seq<u64>,
    width: u8,
    kind: u8,
    tail: Seq<u8>,
    rest: Seq<u8>,
)
    requires
        d == (seq![4u8, 2, flags, dims.len() as u8, width] + (crate::chunk_tree::offsets_bytes(
            dims,
            0,
            width,
        ) + (seq![kind] + tail))) + rest,
        crate::utils::is_width(width),
        dims.len() <= 255,
        forall|i: int|
            0 <= i < dims.len() ==> #[trigger] dims[i] < bytes::pow256(width as nat) && dims[i]
                <= u32::MAX,
    ensures
        ({
            let p = 5 + dims.len() * width;
            &&& d[0] == 4
            &&& d[1] == 2
            &&& d[2] == flags
            &&& d[3] == dims.len()
            &&& d[4] == width
            &&& d[p] == kind
            &&& places::stands(d, p + 1, tail)
            &&& p + 1 + tail.len() + rest.len() == d.len()
            &&& forall|i: int|
                0 <= i < dims.len() ==> data_layout::dimension_at(d, 5 + i * width, width)
                    == #[trigger] dims[i]
        }),
{
    let front = seq![4u8, 2, flags, dims.len() as u8, width];
    let all = crate::chunk_tree::offsets_bytes(dims, 0, width);
    places::lemma_whole(d);
    places::lemma_parts(d, 0, front + (all + (seq![kind] + tail)), rest);
    places::lemma_parts(d, 0, front, all + (seq![kind] + tail));
    places::lemma_byte(d, 0, front, 0);
    places::lemma_byte(d, 0, front, 1);
    places::lemma_byte(d, 0, front, 2);
    places::lemma_byte(d, 0, front, 3);
    places::lemma_byte(d, 0, front, 4);
    places::lemma_parts(d, 5, all, seq![kind] + tail);
    crate::chunk_tree::lemma_offsets_len(dims, 0, width);
    let p = 5 + dims.len() * width;
    places::lemma_parts(d, p, seq![kind], tail);
    places::lemma_byte(d, p, seq![kind], 0);
    assert forall|i: int| 0 <= i < dims.len() implies data_layout::dimension_at(
        d,
        5 + i * width,
        width,
    ) == #[trigger] dims[i] by {
        crate::chunk_tree::lemma_offset(d, 5, dims, 0, i, width);
        if width == 8 {
            let low = bytes::u32_at(d, 5 + i * width) as int;
            let high = bytes::u32_at(d, 5 + i * width + 4) as int;
            assert(bytes::u64_at(d, 5 + i * width) == low + 0x1_0000_0000 * high);
        }
    }
}

/// A chunked layout of version 4 is read as the dimensions, the kind and the address of the index
/// that stand in it, whatever describes the index.
#[verifier::rlimit(30)]
pub proof fn law_chunked_layout_is_read_back(
    flags: u8,
    dims: Seq<u64>,
    width: u8,
    kind: u8,
    parameters: Seq<u8>,
    address: Option<u64>,
    rest: Seq<u8>,
    os: u8,
    ls: u8,
)
    requires
        crate::utils::is_width(os),
        crate::utils::is_width(width),
        places::is_address(address, os),
        dims.len() <= 255,
        forall|i: int|
            0 <= i < dims.len() ==> #[trigger] dims[i] < bytes::pow256(width as nat) && dims[i]
                <= u32::MAX,
        !(kind == 1 && flags / 2 % 2 == 1),
        parameters.len() == parameter_bytes(kind),
    ensures
        data_layout::layout_of(
            chunked_bytes(flags, dims, width, kind, parameters, address, os) + rest,
            os,
            ls,
        ) == Ok::<DataLayoutModel, ErrorModel>(
            DataLayoutModel::Chunked {
                chunk_dimensions: Seq::new(dims.len(), |i: int| dims[i] as u32),
                btree_address: address,
                version: 4,
                chunk_index_type: Some(kind),
                single_chunk_filtered_size: None,
                single_chunk_filter_mask: None,
            },
        ),
{
    let a = places::address(address, os);
    let d = chunked_bytes(flags, dims, width, kind, parameters, address, os) + rest;
    lemma_chunked(d, flags, dims, width, kind, parameters + a, rest);
    let p = 5 + dims.len() * width;
    places::lemma_parts(d, p + 1, parameters, a);
    places::lemma_address(d, p + 1 + parameters.len(), address, os);
    let read = Seq::new(
        dims.len(),
        |i: int| data_layout::dimension_at(d, 5 + i * width, width),
    );
    assert forall|i: int| 0 <= i < dims.len() implies read[i] == dims[i] as u32 by {
        assert(data_layout::dimension_at(d, 5 + i * width, width) == dims[i]);
    }
    assert(read =~= Seq::new(dims.len(), |i: int| dims[i] as u32));
    assert(d[3] as int * width == dims.len() * width);
}

/// A layout of a single filtered chunk is read as the dimensions, the size of the chunk, its mask
/// and its address that stand in it.
#[verifier::rlimit(30)]
pub proof fn law_filtered_chunk_layout_is_read_back(
    flags: u8,
    dims: Seq<u64>,
    width: u8,
    size: u64,
    mask: u32,
    address: Option<u64>,
    rest: Seq<u8>,
    os: u8,
    ls: u8,
)
    requires
        crate::utils::is_width(os),
        crate::utils::is_width(ls),
        crate::utils::is_width(width),
        places::is_address(address, os),
        size < bytes::pow256(ls as nat),
        dims.len() <= 255,
        forall|i: int|
            0 <= i < dims.len() ==> #[trigger] dims[i] < bytes::pow256(width as nat) && dims[i]
                <= u32::MAX,
        flags / 2 % 2 == 1,
    ensures
        data_layout::layout_of(
            chunked_bytes(
                flags,
                dims,
                width,
                1,
                places::field(size as int, ls as int) + places::field(mask as int, 4),
                address,
                os,
            ) + rest,
            os,
            ls,
        ) == Ok::<DataLayoutModel, ErrorModel>(
            DataLayoutModel::Chunked {
                chunk_dimensions: Seq::new(dims.len(), |i: int| dims[i] as u32),
                btree_address: address,
                version: 4,
                chunk_index_type: Some(1),
                single_chunk_filtered_size: Some(size),
                single_chunk_filter_mask: Some(mask),
            },
        ),
{
    let a = places::address(address, os);
    let n = places::field(size as int, ls as int);
    let f = places::field(mask as int, 4);
    let d = chunked_bytes(flags, dims, width, 1, n + f, address, os) + rest;
    places::lemma_field_len(size as int, ls as int);
    places::lemma_field_len(mask as int, 4);
    lemma_chunked(d, flags, dims, width, 1, (n + f) + a, rest);
    let p = 5 + dims.len() * width;
    places::lemma_parts(d, p + 1, n + f, a);
    places::lemma_parts(d, p + 1, n, f);
    places::lemma_word(d, p + 1, size as int, ls);
    places::lemma_u32(d, p + 1 + ls, mask as int);
    places::lemma_address(d, p + 1 + ls + 4, address, os);
    let read = Seq::new(
        dims.len(),
        |i: int| data_layout::dimension_at(d, 5 + i * width, width),
    );
    assert forall|i: int| 0 <= i < dims.len() implies read[i] == dims[i] as u32 by {
        assert(data_layout::dimension_at(d, 5 + i * width, width) == dims[i]);
    }
    assert(read =~= Seq::new(dims.len(), |i: int| dims[i] as u32));
    assert(d[3] as int * width == dims.len() * width);
}

} // verus!

//! HDF5 B-tree v2 parsing.

use vstd::prelude::*;
use vstd::slice::{slice_subrange, slice_to_vec};
use crate::bytes::{byte_len, get_u16, get_u32, tag_at, width_of};
use crate::error::{ErrorModel, FormatError};
use crate::utils::{checksum_mismatch, ensure_len, read_offset, read_variable_length};

verus! {

broadcast use vstd::std_specs::control_flow::group_control_flow_axioms;

/// Parsed B-tree v2 header (signature "BTHD").
#[derive(Debug, Clone, Copy, PartialEq, Eq, Structural)]
pub struct BTreeV2Header {
    /// B-tree type: 5=links indexed by name, 6=links indexed by creation order, etc.
    pub tree_type: u8,
    /// Node size in bytes.
    pub node_size: u32,
    /// Record size in bytes.
    pub record_size: u16,
    /// Depth of the tree (0 = root is a leaf).
    pub depth: u16,
    /// Address of root node.
    pub root_node_address: u64,
    /// Number of records in the root node.
    pub num_records_in_root: u16,
    /// Total number of records in all nodes.
    pub total_records: u64,
}

impl DeepView for BTreeV2Header {
    type V = BTreeV2Header;

    open spec fn deep_view(&self) -> BTreeV2Header {
        *self
    }
}

/// A single record from a B-tree v2 node.
#[derive(Debug)]
pub struct BTreeV2Record {
    /// Raw record bytes (record_size bytes).
    pub data: Vec<u8>,
}

impl DeepView for BTreeV2Record {
    type V = Seq<u8>;

    open spec fn deep_view(&self) -> Seq<u8> {
        self.data@
    }
}

impl Clone for BTreeV2Record {
    fn clone(&self) -> (copy: Self)
        ensures
            copy.deep_view() == self.deep_view(),
    {
        BTreeV2Record { data: slice_to_vec(self.data.as_slice()) }
    }
}

// ---- Header ----

/// The header at `p`.
pub open spec fn header_at(d: Seq<u8>, p: int, os: u8, ls: u8) -> Result<
    BTreeV2Header,
    ErrorModel,
> {
    if !crate::utils::fits(d, p, 4) {
        Err(crate::utils::eof(d, p, 4))
    } else if !crate::bytes::has_tag(d, p, seq![0x42, 0x54, 0x48, 0x44]) {
        Err(ErrorModel::Plain(FormatError::InvalidBTreeV2Signature))
    } else if !crate::utils::fits(d, p, 16) {
        Err(crate::utils::eof(d, p, 16))
    } else if d[p + 4] != 0 {
        Err(ErrorModel::Plain(FormatError::InvalidBTreeV2Version(d[p + 4])))
    } else {
        match crate::utils::offset_at(d, p + 16, os) {
            Err(e) => Err(e),
            Ok(root_node_address) => if !crate::utils::fits(d, p + 16 + os, 2) {
                Err(crate::utils::eof(d, p + 16 + os, 2))
            } else {
                match crate::utils::offset_at(d, p + 18 + os, ls) {
                    Err(e) => Err(e),
                    Ok(total_records) => match crate::utils::stored_checksum(
                        d,
                        p,
                        p + 18 + os + ls,
                    ) {
                        Err(e) => Err(e),
                        Ok(_) => Ok(
                            BTreeV2Header {
                                tree_type: d[p + 5],
                                node_size: crate::bytes::u32_at(d, p + 6),
                                record_size: crate::bytes::u16_at(d, p + 10),
                                depth: crate::bytes::u16_at(d, p + 12),
                                root_node_address,
                                num_records_in_root: crate::bytes::u16_at(d, p + 16 + os),
                                total_records,
                            },
                        ),
                    },
                }
            },
        }
    }
}

impl BTreeV2Header {
    /// Parse a B-tree v2 header at the given offset.
    pub fn parse(file_data: &[u8], offset: usize, offset_size: u8, length_size: u8) -> (r: Result<
        Self,
        FormatError,
    >)
        ensures
            crate::error::outcome(r) == header_at(
                file_data@,
                offset as int,
                offset_size,
                length_size,
            ),
    {
        let len: usize = byte_len(file_data);
        // Signature(4)
        ensure_len(file_data, offset, 4)?;
        if !tag_at(file_data, offset, 0x42, 0x54, 0x48, 0x44) {
            return Err(FormatError::InvalidBTreeV2Signature);
        }
        // Signature(4) + Version(1) + Type(1) + Node size(4) + Record size(2) + Depth(2) +
        // Split percent(1) + Merge percent(1)
        ensure_len(file_data, offset, 16)?;
        let version = file_data[offset + 4];
        if version != 0 {
            return Err(FormatError::InvalidBTreeV2Version(version));
        }
        let tree_type = file_data[offset + 5];
        let node_size: u32 = get_u32(file_data, offset + 6);
        let record_size: u16 = get_u16(file_data, offset + 10);
        let depth: u16 = get_u16(file_data, offset + 12);
        let root_node_address = read_offset(file_data, offset + 16, offset_size)?;
        let pos: usize = offset + 16 + offset_size as usize;
        ensure_len(file_data, pos, 2)?;
        let num_records_in_root: u16 = get_u16(file_data, pos);
        let total_records = read_offset(file_data, pos + 2, length_size)?;
        let end: usize = pos + 2 + length_size as usize;
        // Validate header checksum
        checksum_mismatch(file_data, offset, end)?;
        Ok(
            BTreeV2Header {
                tree_type,
                node_size,
                record_size,
                depth,
                root_node_address,
                num_records_in_root,
                total_records,
            },
        )
    }
}

// ---- Records ----

/// What a traversal finds: the bytes of the records.
pub type Records = Result<Seq<Seq<u8>>, ErrorModel>;

/// Record `i` of the records of `rs` bytes at `p`.
pub open spec fn record_at(d: Seq<u8>, p: int, rs: int, i: int) -> Seq<u8> {
    d.subrange(p + i * rs, p + i * rs + rs)
}

/// The `n` records of the leaf at `p`.
pub open spec fn leaf_records(d: Seq<u8>, p: int, n: int, rs: int) -> Records {
    if !crate::utils::fits(d, p, 6) {
        Err(crate::utils::eof(d, p, 6))
    } else if !crate::bytes::has_tag(d, p, seq![0x42, 0x54, 0x4C, 0x46]) {
        Err(ErrorModel::Plain(FormatError::InvalidBTreeV2Signature))
    } else if !crate::utils::fits(d, p + 6, n * rs) {
        Err(crate::utils::eof(d, p + 6, n * rs))
    } else {
        match crate::utils::stored_checksum(d, p, p + 6 + n * rs) {
            Err(e) => Err(e),
            Ok(_) => Ok(Seq::new(n as nat, |i: int| record_at(d, p + 6, rs, i))),
        }
    }
}

/// The number of records that a leaf has room for.
pub open spec fn leaf_room(node_size: u32, record_size: u16) -> int {
    if node_size <= 10 || record_size == 0 {
        0
    } else {
        (node_size - 10) / record_size as int
    }
}

/// The product, or the largest number of 64 bits where it is larger.
pub open spec fn capped_product(a: u64, b: u64) -> u64 {
    if a * b > u64::MAX {
        u64::MAX
    } else {
        (a * b) as u64
    }
}

/// An estimate of the number of records in a tree of the given depth.
pub open spec fn tree_room(max_leaf: u64, depth: int) -> u64
    decreases depth,
{
    if depth <= 0 {
        max_leaf
    } else {
        capped_product(
            tree_room(max_leaf, depth - 1),
            if max_leaf < 2 {
                2
            } else {
                max_leaf
            },
        )
    }
}

/// The internal node at `p` with `n` records of `rs` bytes, `depth` levels above the leaves.
pub struct InternalNode {
    pub p: int,
    pub n: int,
    pub depth: int,
    pub rs: int,
    pub os: u8,
    pub max_leaf: u64,
}

impl InternalNode {
    /// The number of bytes of the number of records in a child.
    pub open spec fn count_width(self) -> int {
        crate::bytes::byte_width(
            if self.depth == 1 {
                self.max_leaf as nat
            } else {
                2 * self.max_leaf as nat
            },
        ) as int
    }

    /// The number of bytes of the number of records below a child.
    pub open spec fn total_width(self) -> int {
        if self.depth > 1 {
            crate::bytes::byte_width(tree_room(self.max_leaf, self.depth - 1) as nat) as int
        } else {
            0
        }
    }

    /// The number of bytes of what is stored of a child.
    pub open spec fn pointer_size(self) -> int {
        self.os + self.count_width() + self.total_width()
    }

    /// Where what is stored of child `i` stands.
    pub open spec fn pointer(self, i: int) -> int {
        self.p + 6 + self.n * self.rs + i * self.pointer_size()
    }

    /// The address of child `i`.
    pub open spec fn child_address(self, d: Seq<u8>, i: int) -> int {
        (crate::utils::uint_at(d, self.pointer(i), self.os) as usize) as int
    }

    /// The number of records in child `i`.
    pub open spec fn child_count(self, d: Seq<u8>, i: int) -> int {
        let q = self.pointer(i) + self.os;
        (crate::bytes::le_value(d.subrange(q, q + self.count_width())) as u64 as u16) as int
    }

    /// Child `i`, where the children are internal nodes.
    pub open spec fn child(self, d: Seq<u8>, i: int) -> InternalNode {
        InternalNode {
            p: self.child_address(d, i),
            n: self.child_count(d, i),
            depth: self.depth - 1,
            ..self
        }
    }

    /// Why the node cannot be read, if so.
    pub open spec fn error(self, d: Seq<u8>) -> Option<ErrorModel> {
        if !crate::utils::fits(d, self.p, 6) {
            Some(crate::utils::eof(d, self.p, 6))
        } else if !crate::bytes::has_tag(d, self.p, seq![0x42, 0x54, 0x49, 0x4E]) {
            Some(ErrorModel::Plain(FormatError::InvalidBTreeV2Signature))
        } else if !crate::utils::fits(d, self.p + 6, self.n * self.rs) {
            Some(crate::utils::eof(d, self.p + 6, self.n * self.rs))
        } else if !crate::utils::fits(d, self.pointer(0), (self.n + 1) * self.pointer_size()) {
            Some(crate::utils::eof(d, self.pointer(0), (self.n + 1) * self.pointer_size()))
        } else if !crate::utils::is_width(self.os) {
            Some(ErrorModel::Plain(FormatError::InvalidOffsetSize(self.os)))
        } else {
            None
        }
    }

    /// The records of the node and of all below it, in order: those of the first child, the first
    /// record, those of the second child, and so on.
    pub open spec fn records(self, d: Seq<u8>) -> Records
        decreases self.depth, 2int, 0int,
    {
        match self.error(d) {
            Some(e) => Err(e),
            None => self.records_to(d, self.n + 1),
        }
    }

    /// The records below child `i`.
    pub open spec fn child_records(self, d: Seq<u8>, i: int) -> Records
        decreases self.depth, 0int, 0int,
    {
        if self.depth <= 1 {
            leaf_records(d, self.child_address(d, i), self.child_count(d, i), self.rs)
        } else {
            self.child(d, i).records(d)
        }
    }

    /// The records below the first `k` children, each followed by the record between it and the
    /// next.
    pub open spec fn records_to(self, d: Seq<u8>, k: int) -> Records
        decreases self.depth, 1int, k,
    {
        if k <= 0 {
            Ok(Seq::empty())
        } else {
            match self.records_to(d, k - 1) {
                Err(e) => Err(e),
                Ok(done) => match self.child_records(d, k - 1) {
                    Err(e) => Err(e),
                    Ok(found) => Ok(
                        if k - 1 < self.n {
                            (done + found).push(record_at(d, self.p + 6, self.rs, k - 1))
                        } else {
                            done + found
                        },
                    ),
                },
            }
        }
    }
}

/// All records of the tree with the given header.
pub open spec fn all_records(d: Seq<u8>, h: BTreeV2Header, os: u8) -> Records {
    let p = (h.root_node_address as usize) as int;
    if h.total_records == 0 || h.num_records_in_root == 0 {
        Ok(Seq::empty())
    } else if h.depth == 0 {
        leaf_records(d, p, h.num_records_in_root as int, h.record_size as int)
    } else {
        (InternalNode {
            p,
            n: h.num_records_in_root as int,
            depth: h.depth as int,
            rs: h.record_size as int,
            os,
            max_leaf: leaf_room(h.node_size, h.record_size) as u64,
        }).records(d)
    }
}

fn max_records_leaf(node_size: u32, record_size: u16) -> (n: u64)
    ensures
        n == leaf_room(node_size, record_size),
        n <= u32::MAX,
{
    // Leaf overhead: signature(4) + version(1) + type(1) + checksum(4) = 10
    if node_size <= 10 || record_size == 0 {
        return 0;
    }
    let n: u32 = (node_size - 10) / record_size as u32;
    n as u64
}

fn estimate_total(max_leaf_nrec: u64, depth: u16) -> (total: u64)
    ensures
        total == tree_room(max_leaf_nrec, depth as int),
{
    let factor: u64 = if max_leaf_nrec < 2 {
        2
    } else {
        max_leaf_nrec
    };
    let mut total: u64 = max_leaf_nrec;
    let mut k: u16 = 0;
    while k < depth
        invariant
            k <= depth,
            factor == (if max_leaf_nrec < 2 {
                2u64
            } else {
                max_leaf_nrec
            }),
            total == tree_room(max_leaf_nrec, k as int),
        decreases depth - k,
    {
        total = match total.checked_mul(factor) {
            Some(t) => t,
            None => u64::MAX,
        };
        k += 1;
    }
    total
}

fn read_record(d: &[u8], p: usize, rs: usize, i: usize) -> (r: BTreeV2Record)
    requires
        p + i * rs + rs <= d@.len(),
    ensures
        r.deep_view() == record_at(d@, p as int, rs as int, i as int),
{
    proof {
        assert(d.len() == d@.len());
        assert(i * rs >= 0) by (nonlinear_arith)
            requires
                i >= 0,
                rs >= 0,
        ;
    }
    let start: usize = p + i * rs;
    BTreeV2Record { data: slice_to_vec(slice_subrange(d, start, start + rs)) }
}

/// Appends the records of the leaf at `offset`.
fn put_leaf_records(
    file_data: &[u8],
    offset: usize,
    num_records: u16,
    record_size: u16,
    out: &mut Vec<BTreeV2Record>,
) -> (r: Result<(), FormatError>)
    ensures
        match r {
            Ok(_) => leaf_records(
                file_data@,
                offset as int,
                num_records as int,
                record_size as int,
            ) is Ok && final(out).deep_view() == old(out).deep_view() + leaf_records(
                file_data@,
                offset as int,
                num_records as int,
                record_size as int,
            )->Ok_0,
            Err(e) => leaf_records(
                file_data@,
                offset as int,
                num_records as int,
                record_size as int,
            ) == Err::<Seq<Seq<u8>>, ErrorModel>(e.deep_view()),
        },
{
    let len: usize = byte_len(file_data);
    // signature(4) + version(1) + type(1) = 6 bytes header
    ensure_len(file_data, offset, 6)?;
    if !tag_at(file_data, offset, 0x42, 0x54, 0x4C, 0x46) {
        return Err(FormatError::InvalidBTreeV2Signature);
    }
    let pos: usize = offset + 6;
    let rs: usize = record_size as usize;
    let n: usize = num_records as usize;
    proof {
        lemma_records_fit(n as int, rs as int);
    }
    let total: usize = n * rs;
    ensure_len(file_data, pos, total)?;
    // Validate checksum: 4 bytes after records
    checksum_mismatch(file_data, offset, pos + total)?;
    let mut i: usize = 0;
    let ghost before = out.deep_view();
    assert(out.deep_view() =~= before + Seq::new(
        0,
        |k: int| record_at(file_data@, pos as int, rs as int, k),
    ));
    while i < n
        invariant
            i <= n,
            pos + n * rs <= file_data@.len(),
            out.deep_view() == before + Seq::new(
                i as nat,
                |k: int| record_at(file_data@, pos as int, rs as int, k),
            ),
        decreases n - i,
    {
        proof {
            assert(i * rs + rs <= n * rs) by (nonlinear_arith)
                requires
                    i + 1 <= n,
                    rs >= 0,
            ;
        }
        let record = read_record(file_data, pos, rs, i);
        let ghost mid = out.deep_view();
        out.push(record);
        assert(out.deep_view() =~= mid.push(record.deep_view()));
        assert(out.deep_view() =~= before + Seq::new(
            (i + 1) as nat,
            |k: int| record_at(file_data@, pos as int, rs as int, k),
        ));
        i += 1;
    }
    Ok(())
}

proof fn lemma_records_fit(n: int, rs: int)
    requires
        0 <= n <= u16::MAX,
        0 <= rs <= u16::MAX,
    ensures
        0 <= n * rs <= 0xFFFE_0001,
{
    assert(0 <= n * rs <= 0xFFFF * 0xFFFF) by (nonlinear_arith)
        requires
            0 <= n <= 0xFFFF,
            0 <= rs <= 0xFFFF,
    ;
}

/// An error below one child is the error of all.
proof fn lemma_child_error(node: InternalNode, d: Seq<u8>, k: int, n: int)
    requires
        0 <= k <= n,
        node.records_to(d, k) is Err,
    ensures
        node.records_to(d, n) == node.records_to(d, k),
    decreases n - k,
{
    if k < n {
        lemma_child_error(node, d, k, n - 1);
    }
}

/// Appends the records of an internal node and of all below it.
fn collect_internal_records(
    file_data: &[u8],
    offset: usize,
    num_records: u16,
    depth: u16,
    record_size: u16,
    offset_size: u8,
    max_leaf_nrec: u64,
    out: &mut Vec<BTreeV2Record>,
) -> (r: Result<(), FormatError>)
    requires
        depth > 0,
        max_leaf_nrec <= u32::MAX,
    ensures
        ({
            let found = (InternalNode {
                p: offset as int,
                n: num_records as int,
                depth: depth as int,
                rs: record_size as int,
                os: offset_size,
                max_leaf: max_leaf_nrec,
            }).records(file_data@);
            match r {
                Ok(_) => found is Ok && final(out).deep_view() == old(out).deep_view()
                    + found->Ok_0,
                Err(e) => found == Err::<Seq<Seq<u8>>, ErrorModel>(e.deep_view()),
            }
        }),
    decreases depth,
{
    let len: usize = byte_len(file_data);
    let ghost d = file_data@;
    let ghost node = InternalNode {
        p: offset as int,
        n: num_records as int,
        depth: depth as int,
        rs: record_size as int,
        os: offset_size,
        max_leaf: max_leaf_nrec,
    };
    // signature(4) + version(1) + type(1) = 6
    ensure_len(file_data, offset, 6)?;
    if !tag_at(file_data, offset, 0x42, 0x54, 0x49, 0x4E) {
        return Err(FormatError::InvalidBTreeV2Signature);
    }
    let nr: usize = num_records as usize;
    let rs: usize = record_size as usize;
    let records_start: usize = offset + 6;
    proof {
        lemma_records_fit(nr as int, rs as int);
    }
    // Read all records first
    ensure_len(file_data, records_start, nr * rs)?;
    let start: usize = records_start + nr * rs;
    // Compute sizes for child pointers
    let child_depth: u16 = depth - 1;
    let max_nrec_child: u64 = if child_depth == 0 {
        max_leaf_nrec
    } else {
        max_leaf_nrec * 2
    };
    let nrec_width: usize = width_of(max_nrec_child);
    // Total records in subtree width (only if depth > 1)
    let total_nrec_width: usize = if depth > 1 {
        width_of(estimate_total(max_leaf_nrec, depth - 1))
    } else {
        0
    };
    let os: usize = offset_size as usize;
    let ptr: usize = os + nrec_width + total_nrec_width;
    assert(node.count_width() == nrec_width);
    assert(node.total_width() == total_nrec_width);
    assert(node.pointer_size() == ptr);
    proof {
        assert(0 <= (nr + 1) * ptr <= 0x10000 * 271) by (nonlinear_arith)
            requires
                0 <= nr <= 0xFFFF,
                0 <= ptr <= 271,
        ;
        assert(0 * ptr == 0);
    }
    let num_children: usize = nr + 1;
    ensure_len(file_data, start, num_children * ptr)?;
    match offset_size {
        1 | 2 | 4 | 8 => {},
        _ => {
            return Err(FormatError::InvalidOffsetSize(offset_size));
        },
    }
    assert(node.error(d) is None);
    let ghost before = out.deep_view();
    let ghost mut done = Seq::<Seq<u8>>::empty();
    assert(out.deep_view() =~= before + done);
    let mut i: usize = 0;
    // Interleave: child[0], record[0], child[1], record[1], ..., child[nr]
    while i < num_children
        invariant
            d == file_data@,
            len == d.len(),
            len <= isize::MAX,
            node == (InternalNode {
                p: offset as int,
                n: num_records as int,
                depth: depth as int,
                rs: record_size as int,
                os: offset_size,
                max_leaf: max_leaf_nrec,
            }),
            max_leaf_nrec <= u32::MAX,
            depth > 0,
            child_depth == depth - 1,
            nr == num_records,
            rs == record_size,
            os == offset_size,
            num_children == nr + 1,
            records_start == offset + 6,
            records_start + nr * rs <= len,
            start == node.pointer(0),
            start == records_start + nr * rs,
            ptr == node.pointer_size(),
            nrec_width == node.count_width(),
            nrec_width <= 8,
            os + nrec_width <= ptr,
            start + num_children * ptr <= len,
            crate::utils::is_width(offset_size),
            node.error(d) is None,
            i <= num_children,
            node.records_to(d, i as int) == Ok::<Seq<Seq<u8>>, ErrorModel>(done),
            out.deep_view() == before + done,
        decreases num_children - i,
    {
        proof {
            assert(i * ptr + ptr <= num_children * ptr && i * ptr >= 0) by (nonlinear_arith)
                requires
                    0 <= i,
                    i + 1 <= num_children,
                    ptr >= 0,
            ;
            assert(0 * ptr == 0);
        }
        let pos: usize = start + i * ptr;
        assert(pos == node.pointer(i as int));
        let child_addr: usize = read_offset(file_data, pos, offset_size)? as usize;
        let q: usize = pos + os;
        let count_bytes = slice_subrange(file_data, q, q + nrec_width);
        assert(count_bytes@.subrange(0, nrec_width as int) =~= count_bytes@);
        let child_nrec: u16 = read_variable_length(count_bytes, nrec_width)? as u16;
        assert(child_addr == node.child_address(d, i as int));
        assert(child_nrec == node.child_count(d, i as int));
        let found = if child_depth == 0 {
            put_leaf_records(file_data, child_addr, child_nrec, record_size, out)
        } else {
            collect_internal_records(
                file_data,
                child_addr,
                child_nrec,
                child_depth,
                record_size,
                offset_size,
                max_leaf_nrec,
                out,
            )
        };
        let ghost below = node.child_records(d, i as int);
        assert(match found {
            Ok(_) => below is Ok && out.deep_view() == before + done + below->Ok_0,
            Err(e) => below == Err::<Seq<Seq<u8>>, ErrorModel>(e.deep_view()),
        });
        match found {
            Ok(_) => {},
            Err(e) => {
                proof {
                    lemma_child_error(node, d, i + 1, num_children as int);
                }
                return Err(e);
            },
        }
        assert(before + done + below->Ok_0 =~= before + (done + below->Ok_0));
        proof {
            done = done + below->Ok_0;
        }
        // Add record[i] (except after the last child)
        if i < nr {
            proof {
                assert(i * rs + rs <= nr * rs) by (nonlinear_arith)
                    requires
                        i + 1 <= nr,
                        rs >= 0,
                ;
            }
            let record = read_record(file_data, records_start, rs, i);
            let ghost mid = out.deep_view();
            out.push(record);
            proof {
                assert(out.deep_view() =~= mid.push(record.deep_view()));
                done = done.push(record.deep_view());
                assert(out.deep_view() =~= before + done);
            }
        }
        i += 1;
    }
    Ok(())
}

/// Collect all records from a B-tree v2 by traversing from the root.
pub fn collect_btree_v2_records(
    file_data: &[u8],
    header: &BTreeV2Header,
    offset_size: u8,
    _length_size: u8,
) -> (r: Result<Vec<BTreeV2Record>, FormatError>)
    ensures
        crate::error::outcome(r) == all_records(file_data@, *header, offset_size),
{
    let mut records: Vec<BTreeV2Record> = Vec::new();
    let ghost none = Seq::<Seq<u8>>::empty();
    assert(records.deep_view() =~= none);
    if header.total_records == 0 || header.num_records_in_root == 0 {
        return Ok(records);
    }
    let max_leaf_nrec: u64 = max_records_leaf(header.node_size, header.record_size);
    let ghost all = all_records(file_data@, *header, offset_size);
    assert(all is Ok ==> none + all->Ok_0 =~= all->Ok_0);
    if header.depth == 0 {
        // Root is a leaf
        put_leaf_records(
            file_data,
            header.root_node_address as usize,
            header.num_records_in_root,
            header.record_size,
            &mut records,
        )?;
    } else {
        // Root is internal; traverse recursively
        collect_internal_records(
            file_data,
            header.root_node_address as usize,
            header.num_records_in_root,
            header.depth,
            header.record_size,
            offset_size,
            max_leaf_nrec,
            &mut records,
        )?;
    }
    Ok(records)
}

} // verus!

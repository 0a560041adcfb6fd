//! HDF5 B-tree v1 parsing (type 0 for groups).

use vstd::prelude::*;
use crate::bytes::{byte_len, get_u16, tag_at};
use crate::data_layout::read_address;
use crate::error::{ErrorModel, FormatError};
use crate::traversal::{Path, Visit};
use crate::utils::{ensure_len, read_offset};

verus! {

broadcast use vstd::std_specs::control_flow::group_control_flow_axioms;

/// A parsed B-tree v1 node.
#[derive(Debug, Clone)]
pub struct BTreeV1Node {
    /// Node type: 0=group, 1=raw data chunks.
    pub node_type: u8,
    /// Node level: 0=leaf, >0=internal.
    pub node_level: u8,
    /// Number of entries used.
    pub entries_used: u16,
    /// Left sibling address, or None if undefined.
    pub left_sibling: Option<u64>,
    /// Right sibling address, or None if undefined.
    pub right_sibling: Option<u64>,
    /// Keys (entries_used + 1 values).
    pub keys: Vec<u64>,
    /// Child addresses (entries_used values).
    pub children: Vec<u64>,
}

/// The content of a [`BTreeV1Node`].
pub struct NodeModel {
    pub node_type: u8,
    pub node_level: u8,
    pub entries_used: u16,
    pub left_sibling: Option<u64>,
    pub right_sibling: Option<u64>,
    pub keys: Seq<u64>,
    pub children: Seq<u64>,
}

impl DeepView for BTreeV1Node {
    type V = NodeModel;

    open spec fn deep_view(&self) -> NodeModel {
        NodeModel {
            node_type: self.node_type,
            node_level: self.node_level,
            entries_used: self.entries_used,
            left_sibling: self.left_sibling,
            right_sibling: self.right_sibling,
            keys: self.keys@,
            children: self.children@,
        }
    }
}

/// The node at `p`. Behind the addresses of its siblings, keys and children alternate; a key
/// stands behind the last child too.
pub open spec fn node_at(d: Seq<u8>, p: int, os: u8) -> Result<NodeModel, ErrorModel> {
    let n = crate::bytes::u16_at(d, p + 6);
    let q = p + 8 + 2 * os;
    if !crate::utils::fits(d, p, 8 + 2 * os) {
        Err(crate::utils::eof(d, p, 8 + 2 * os))
    } else if !crate::bytes::has_tag(d, p, seq![0x54, 0x52, 0x45, 0x45]) {
        Err(ErrorModel::Plain(FormatError::InvalidBTreeSignature))
    } else {
        match crate::data_layout::address_at(d, p + 8, os) {
            Err(e) => Err(e),
            Ok(left_sibling) => match crate::data_layout::address_at(d, p + 8 + os, os) {
                Err(e) => Err(e),
                Ok(right_sibling) => if !crate::utils::fits(d, q, n * (2 * os) + os) {
                    Err(crate::utils::eof(d, q, n * (2 * os) + os))
                } else if !crate::utils::is_width(os) {
                    Err(ErrorModel::Plain(FormatError::InvalidOffsetSize(os)))
                } else {
                    Ok(
                        NodeModel {
                            node_type: d[p + 4],
                            node_level: d[p + 5],
                            entries_used: n,
                            left_sibling,
                            right_sibling,
                            keys: Seq::new((n + 1) as nat, |i: int| key_at(d, q, i, os)),
                            children: Seq::new(n as nat, |i: int| child_at(d, q, i, os)),
                        },
                    )
                },
            },
        }
    }
}

/// Key `i` of the entries at `q`.
pub open spec fn key_at(d: Seq<u8>, q: int, i: int, os: u8) -> u64 {
    crate::utils::uint_at(d, q + i * (2 * os), os)
}

/// Child `i` of the entries at `q`.
pub open spec fn child_at(d: Seq<u8>, q: int, i: int, os: u8) -> u64 {
    crate::utils::uint_at(d, q + i * (2 * os) + os, os)
}

impl BTreeV1Node {
    /// Parse a B-tree v1 node at the given offset in the file data.
    ///
    /// For type 0 (group) nodes, keys are offset_size bytes each (heap name offsets).
    pub fn parse(file_data: &[u8], offset: usize, offset_size: u8, _length_size: u8) -> (r: Result<
        BTreeV1Node,
        FormatError,
    >)
        ensures
            crate::error::outcome(r) == node_at(file_data@, offset as int, offset_size),
    {
        let len: usize = byte_len(file_data);
        let ghost d = file_data@;
        let ghost p = offset as int;
        // signature(4) + node_type(1) + node_level(1) + entries_used(2) = 8
        // + left_sibling(offset_size) + right_sibling(offset_size)
        let os: usize = offset_size as usize;
        let header_size: usize = 8 + os * 2;
        ensure_len(file_data, offset, header_size)?;
        if !tag_at(file_data, offset, 0x54, 0x52, 0x45, 0x45) {
            return Err(FormatError::InvalidBTreeSignature);
        }
        let node_type = file_data[offset + 4];
        let node_level = file_data[offset + 5];
        let entries_used: u16 = get_u16(file_data, offset + 6);
        let left_sibling = read_address(file_data, offset + 8, offset_size)?;
        let right_sibling = read_address(file_data, offset + 8 + os, offset_size)?;
        // Layout: key[0], child[0], key[1], child[1], ..., key[N-1], child[N-1], key[N]
        let start: usize = offset + header_size;
        let step: usize = 2 * os;
        let eu: usize = entries_used as usize;
        proof {
            assert(0 <= eu * step <= 0x10000 * 510) by (nonlinear_arith)
                requires
                    0 <= eu < 0x10000,
                    0 <= step <= 510,
            ;
        }
        let needed: usize = eu * step + os;
        ensure_len(file_data, start, needed)?;
        let mut keys: Vec<u64> = Vec::with_capacity(eu + 1);
        let mut children: Vec<u64> = Vec::with_capacity(eu);
        let ghost goal = node_at(d, p, offset_size);
        let mut i: usize = 0;
        while i < eu
            invariant
                d == file_data@,
                len == d.len(),
                len <= isize::MAX,
                os == offset_size,
                step == 2 * os,
                start + eu * step + os <= len,
                i <= eu,
                i > 0 ==> crate::utils::is_width(offset_size),
                !crate::utils::is_width(offset_size) ==> goal == Err::<NodeModel, ErrorModel>(
                    ErrorModel::Plain(FormatError::InvalidOffsetSize(offset_size)),
                ),
                goal == node_at(d, offset as int, offset_size),
                keys@ == Seq::new(i as nat, |k: int| key_at(d, start as int, k, offset_size)),
                children@ == Seq::new(i as nat, |k: int| child_at(d, start as int, k, offset_size)),
            decreases eu - i,
        {
            proof {
                assert(i * step + step <= eu * step && i * step >= 0) by (nonlinear_arith)
                    requires
                        0 <= i,
                        i + 1 <= eu,
                        step >= 0,
                ;
            }
            let pos: usize = start + i * step;
            let key = read_offset(file_data, pos, offset_size)?;
            let child = read_offset(file_data, pos + os, offset_size)?;
            let ghost old_keys = keys@;
            let ghost old_children = children@;
            keys.push(key);
            children.push(child);
            proof {
                assert(keys@ =~= Seq::new(
                    (i + 1) as nat,
                    |k: int| key_at(d, start as int, k, offset_size),
                ));
                assert(children@ =~= Seq::new(
                    (i + 1) as nat,
                    |k: int| child_at(d, start as int, k, offset_size),
                ));
            }
            i += 1;
        }
        // final key
        let key = read_offset(file_data, start + eu * step, offset_size)?;
        keys.push(key);
        assert(keys@ =~= Seq::new(
            (eu + 1) as nat,
            |k: int| key_at(d, start as int, k, offset_size),
        ));
        Ok(
            BTreeV1Node {
                node_type,
                node_level,
                entries_used,
                left_sibling,
                right_sibling,
                keys,
                children,
            },
        )
    }
}

// ---- Traversal ----

/// What a traversal finds.
pub type Addresses = Result<Seq<u64>, ErrorModel>;

/// What a visit to the node at `p` gives.
pub open spec fn visit_at(d: Seq<u8>, p: int, os: u8) -> Visit<u64> {
    match node_at(d, p, os) {
        Err(e) => Visit::Leaf(Err(e)),
        Ok(node) => if p < 0 {
            Visit::Leaf(Ok(Seq::empty()))
        } else if node.node_type != 0 {
            Visit::Leaf(
                Err(ErrorModel::Plain(FormatError::InvalidBTreeNodeType(node.node_type))),
            )
        } else if node.node_level == 0 {
            Visit::Leaf(Ok(node.children))
        } else {
            Visit::Inner(crate::traversal::positions(node.children))
        },
    }
}

/// What visits to the nodes of a file give.
pub open spec fn visits(d: Seq<u8>, os: u8) -> spec_fn(int) -> Visit<u64> {
    |p: int| visit_at(d, p, os)
}

/// The addresses of the symbol table nodes of the group whose tree is at `p`: those in the leaves of
/// the tree. No path in a file without cycles has more nodes than the file has bytes.
pub open spec fn symbol_table_nodes(d: Seq<u8>, p: int, os: u8) -> Addresses {
    crate::traversal::found(visits(d, os), p, d.len())
}

/// The bound on the depth of a tree makes no difference: if the leaves of the tree can be reached at
/// all, they are found.
pub proof fn law_depth_is_irrelevant(d: Seq<u8>, p: int, os: u8, depth: nat)
    requires
        crate::traversal::ends(visits(d, os), p, depth),
    ensures
        symbol_table_nodes(d, p, os) == crate::traversal::found(visits(d, os), p, depth),
{
    let visit = visits(d, os);
    assert forall|q: int| #[trigger] visit(q) is Inner implies 0 <= q < d.len() by {
        assert(visit(q) == visit_at(d, q, os));
    }
    assert forall|q: int|
        #[trigger] visit(q) != Visit::Leaf(
            Err::<Seq<u64>, ErrorModel>(crate::traversal::too_deep()),
        ) by {
        assert(visit(q) == visit_at(d, q, os));
    }
    crate::traversal::law_traversal_ends(visit, d.len(), p, depth);
}

/// Reads a node: whether it is an inner one, and the addresses of its children.
fn visit_node(file_data: &[u8], address: u64, offset_size: u8, length_size: u8) -> (r: Result<
    (bool, Vec<u64>),
    FormatError,
>)
    ensures
        visit_at(file_data@, (address as usize) as int, offset_size) == match r {
            Err(e) => Visit::Leaf(Err(e.deep_view())),
            Ok((inner, children)) => if inner {
                Visit::Inner(crate::traversal::positions(children@))
            } else {
                Visit::Leaf(Ok(children@))
            },
        },
{
    let node = BTreeV1Node::parse(file_data, address as usize, offset_size, length_size)?;
    if node.node_type != 0 {
        return Err(FormatError::InvalidBTreeNodeType(node.node_type));
    }
    Ok((node.node_level != 0, node.children))
}

/// Collect all leaf-level child addresses (SNOD addresses) by traversing the B-tree.
pub fn collect_symbol_table_nodes(
    file_data: &[u8],
    btree_address: u64,
    offset_size: u8,
    length_size: u8,
) -> (r: Result<Vec<u64>, FormatError>)
    ensures
        crate::error::outcome(r) == symbol_table_nodes(
            file_data@,
            (btree_address as usize) as int,
            offset_size,
        ),
{
    let ghost p = (btree_address as usize) as int;
    let ghost visit = visits(file_data@, offset_size);
    let limit: usize = byte_len(file_data);
    proof {
        crate::traversal::lemma_start(visit, p, limit as nat);
        assert(visit(p) == visit_at(file_data@, p, offset_size));
    }
    let (inner, children) = visit_node(file_data, btree_address, offset_size, length_size)?;
    if !inner {
        // Leaf: children are SNOD addresses
        assert(children.deep_view() =~= children@);
        return Ok(children);
    }
    if limit == 0 {
        return Err(FormatError::NestingDepthExceeded);
    }
    // Internal: visit the children in order
    let mut path = Path::new(children);
    let mut result: Vec<u64> = Vec::new();
    let mut done: bool = false;
    assert(result@ =~= Seq::<u64>::empty());
    while !done
        invariant
            limit == file_data@.len(),
            p == (btree_address as usize) as int,
            visit == visits(file_data@, offset_size),
            path.levels().len() <= limit,
            symbol_table_nodes(file_data@, p, offset_size) == crate::traversal::resumed(
                visit,
                path.levels(),
                result@,
                limit as nat,
            ),
            done ==> path.levels().len() == 0,
        decreases
                crate::traversal::steps_left(visit, path.levels(), limit as nat),
                if done {
                    0int
                } else {
                    1int
                },
    {
        let (next, Ghost(levels)) = path.next_child::<u64>(
            Ghost(visit),
            Ghost(result@),
            Ghost(limit as nat),
        );
        match next {
            None => {
                done = true;
            },
            Some(address) => {
                let ghost q = (address as usize) as int;
                proof {
                    assert(visit(q) == visit_at(file_data@, q, offset_size));
                    if visit(q) is Leaf {
                        crate::traversal::lemma_leaf(visit, levels, result@, limit as nat);
                    } else {
                        crate::traversal::lemma_descend(visit, levels, result@, limit as nat);
                    }
                }
                let depth: usize = path.len();
                let (inner, children) = visit_node(
                    file_data,
                    address,
                    offset_size,
                    length_size,
                )?;
                if !inner {
                    put_all(&mut result, &children);
                } else if depth >= limit {
                    return Err(FormatError::NestingDepthExceeded);
                } else {
                    path.descend(children);
                }
            },
        }
    }
    assert(result.deep_view() =~= result@);
    Ok(result)
}

fn put_all(list: &mut Vec<u64>, more: &Vec<u64>)
    ensures
        final(list)@ == old(list)@ + more@,
{
    let mut k: usize = 0;
    assert(list@ =~= old(list)@ + more@.subrange(0, 0));
    while k < more.len()
        invariant
            k <= more@.len(),
            list@ == old(list)@ + more@.subrange(0, k as int),
        decreases more@.len() - k,
    {
        list.push(more[k]);
        assert(list@ =~= old(list)@ + more@.subrange(0, k + 1));
        k += 1;
    }
    assert(more@.subrange(0, k as int) =~= more@);
}

} // verus!

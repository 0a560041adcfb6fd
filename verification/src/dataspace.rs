//! HDF5 Dataspace message parsing (message type 0x0001).

use vstd::prelude::*;
use crate::bytes::put_address;
use crate::error::{ErrorModel, FormatError};
use crate::utils::{ensure_len, read_offset};

verus! {

broadcast use vstd::std_specs::control_flow::group_control_flow_axioms;

/// Type of dataspace.
#[derive(Debug, Clone, Copy, PartialEq, Eq, Structural)]
pub enum DataspaceType {
    /// Scalar (single element).
    Scalar,
    /// Simple (N-dimensional array).
    Simple,
    /// Null (no data).
    Null,
}

/// Parsed HDF5 dataspace message.
#[derive(Debug, PartialEq)]
pub struct Dataspace {
    /// The type of this dataspace.
    pub space_type: DataspaceType,
    /// Number of dimensions (0 for scalar).
    pub rank: u8,
    /// Current dimension sizes.
    pub dimensions: Vec<u64>,
    /// Maximum dimension sizes, if present. `u64::MAX` means unlimited.
    pub max_dimensions: Option<Vec<u64>>,
}

/// The content of a [`Dataspace`].
pub struct DataspaceModel {
    pub space_type: DataspaceType,
    pub rank: u8,
    pub dimensions: Seq<u64>,
    pub max_dimensions: Option<Seq<u64>>,
}

impl DeepView for Dataspace {
    type V = DataspaceModel;

    open spec fn deep_view(&self) -> DataspaceModel {
        DataspaceModel {
            space_type: self.space_type,
            rank: self.rank,
            dimensions: self.dimensions@,
            max_dimensions: match self.max_dimensions {
                Some(dims) => Some(dims@),
                None => None,
            },
        }
    }
}

impl Clone for Dataspace {
    fn clone(&self) -> (r: Self)
        ensures
            r.deep_view() == self.deep_view(),
    {
        let max_dimensions = match &self.max_dimensions {
            Some(dims) => {
                let copy = dims.clone();
                assert(copy@ =~= dims@);
                Some(copy)
            },
            None => None,
        };
        let dimensions = self.dimensions.clone();
        assert(dimensions@ =~= self.dimensions@);
        Dataspace { space_type: self.space_type, rank: self.rank, dimensions, max_dimensions }
    }
}

/// The length of `ls` bytes at `pos`.
pub open spec fn length_at(d: Seq<u8>, pos: int, ls: u8) -> Result<u64, ErrorModel> {
    if !crate::utils::fits(d, pos, ls as int) {
        Err(crate::utils::eof(d, pos, ls as int))
    } else if !crate::superblock::is_size(ls) {
        Err(ErrorModel::Plain(FormatError::InvalidLengthSize(ls)))
    } else {
        Ok(crate::utils::uint_at(d, pos, ls))
    }
}

/// `done` and the `count` lengths of `ls` bytes each from `pos` on.
pub open spec fn lengths_at(d: Seq<u8>, pos: int, count: nat, ls: u8, done: Seq<u64>) -> Result<
    Seq<u64>,
    ErrorModel,
>
    decreases count,
{
    if count == 0 {
        Ok(done)
    } else {
        match length_at(d, pos, ls) {
            Err(e) => Err(e),
            Ok(v) => lengths_at(d, pos + ls, (count - 1) as nat, ls, done.push(v)),
        }
    }
}

/// The dataspace that the message `d` describes.
pub open spec fn dataspace_of(d: Seq<u8>, ls: u8) -> Result<DataspaceModel, ErrorModel> {
    if !crate::utils::fits(d, 0, 4) {
        Err(crate::utils::eof(d, 0, 4))
    } else if d[0] == 1 {
        if !crate::utils::fits(d, 0, 8) {
            Err(crate::utils::eof(d, 0, 8))
        } else {
            extents_of(
                d,
                if d[1] == 0 {
                    DataspaceType::Scalar
                } else {
                    DataspaceType::Simple
                },
                8,
                ls,
            )
        }
    } else if d[0] == 2 {
        if d[3] == 0 {
            extents_of(d, DataspaceType::Scalar, 4, ls)
        } else if d[3] == 1 {
            extents_of(d, DataspaceType::Simple, 4, ls)
        } else if d[3] == 2 {
            extents_of(d, DataspaceType::Null, 4, ls)
        } else {
            Err(ErrorModel::Plain(FormatError::InvalidDataspaceType(d[3])))
        }
    } else {
        Err(ErrorModel::Plain(FormatError::InvalidDataspaceVersion(d[0])))
    }
}

/// The dataspace of the given type whose dimensions start at `pos`; the maximum dimensions follow
/// where the lowest flag is set.
pub open spec fn extents_of(d: Seq<u8>, space_type: DataspaceType, pos: int, ls: u8) -> Result<
    DataspaceModel,
    ErrorModel,
> {
    let rank = d[1];
    match lengths_at(d, pos, rank as nat, ls, Seq::empty()) {
        Err(e) => Err(e),
        Ok(dimensions) => if d[2] % 2 == 0 {
            Ok(DataspaceModel { space_type, rank, dimensions, max_dimensions: None })
        } else {
            match lengths_at(d, pos + rank * ls, rank as nat, ls, Seq::empty()) {
                Err(e) => Err(e),
                Ok(dims) => Ok(
                    DataspaceModel { space_type, rank, dimensions, max_dimensions: Some(dims) },
                ),
            }
        },
    }
}

/// The bytes of the lengths `dims` from the `from`-th on.
pub open spec fn lengths_bytes(dims: Seq<u64>, from: int, ls: u8) -> Seq<u8>
    decreases dims.len() - from,
{
    if from >= dims.len() {
        Seq::empty()
    } else {
        crate::bytes::address_bytes(dims[from], ls) + lengths_bytes(dims, from + 1, ls)
    }
}

/// The product of the first `n` dimensions.
pub open spec fn product(dims: Seq<u64>, n: int) -> nat
    decreases n,
{
    if n <= 0 {
        1
    } else {
        product(dims, n - 1) * dims[n - 1] as nat
    }
}

/// Whether the product of the leading dimensions never exceeds 64 bits.
pub open spec fn is_countable(dims: Seq<u64>) -> bool {
    forall|n: int| 0 <= n <= dims.len() ==> #[trigger] product(dims, n) <= u64::MAX
}

impl DataspaceModel {
    /// The byte that stands for the type.
    pub open spec fn type_byte(self) -> u8 {
        match self.space_type {
            DataspaceType::Scalar => 0,
            DataspaceType::Simple => 1,
            DataspaceType::Null => 2,
        }
    }

    /// The bytes of the dataspace message (version 2).
    pub open spec fn bytes(self, ls: u8) -> Seq<u8> {
        let flags = if self.max_dimensions is Some {
            1u8
        } else {
            0u8
        };
        let head = seq![2u8, self.rank, flags, self.type_byte()] + lengths_bytes(
            self.dimensions,
            0,
            ls,
        );
        match self.max_dimensions {
            Some(dims) => head + lengths_bytes(dims, 0, ls),
            None => head,
        }
    }

    /// The number of elements.
    pub open spec fn elements(self) -> nat {
        match self.space_type {
            DataspaceType::Null => 0,
            DataspaceType::Scalar => 1,
            DataspaceType::Simple => if self.dimensions.len() == 0 {
                0
            } else {
                product(self.dimensions, self.dimensions.len() as int)
            },
        }
    }

    /// Whether the message has room for the dataspace: the rank is the number of dimensions, and
    /// each length fits in `ls` bytes.
    pub open spec fn representable(self, ls: u8) -> bool {
        &&& crate::superblock::is_size(ls)
        &&& self.dimensions.len() == self.rank
        &&& forall|i: int|
            0 <= i < self.rank ==> #[trigger] self.dimensions[i] < crate::bytes::pow256(ls as nat)
        &&& self.max_dimensions matches Some(dims) ==> {
            &&& dims.len() == self.rank
            &&& forall|i: int|
                0 <= i < self.rank ==> #[trigger] dims[i] < crate::bytes::pow256(ls as nat)
        }
    }
}

pub(crate) fn read_length(data: &[u8], offset: usize, length_size: u8) -> (r: Result<u64, FormatError>)
    ensures
        crate::error::outcome(r) == length_at(data@, offset as int, length_size),
{
    ensure_len(data, offset, length_size as usize)?;
    match length_size {
        2 | 4 | 8 => read_offset(data, offset, length_size),
        _ => Err(FormatError::InvalidLengthSize(length_size)),
    }
}

impl Dataspace {
    /// Parse a dataspace message from raw message bytes.
    ///
    /// `length_size` is needed for dimension value width (from superblock).
    pub fn parse(data: &[u8], length_size: u8) -> (r: Result<Self, FormatError>)
        ensures
            crate::error::outcome(r) == dataspace_of(data@, length_size),
    {
        ensure_len(data, 0, 4)?;
        let version = data[0];
        let rank = data[1];
        let flags = data[2];
        let (space_type, header_size) = match version {
            1 => {
                // v1: byte 3 is reserved, then 4 reserved bytes
                ensure_len(data, 0, 8)?;
                let st = if rank == 0 {
                    DataspaceType::Scalar
                } else {
                    DataspaceType::Simple
                };
                (st, 8usize)
            },
            2 => {
                // v2: byte 3 is type
                let type_byte = data[3];
                let st = match type_byte {
                    0 => DataspaceType::Scalar,
                    1 => DataspaceType::Simple,
                    2 => DataspaceType::Null,
                    _ => {
                        return Err(FormatError::InvalidDataspaceType(type_byte));
                    },
                };
                (st, 4usize)
            },
            _ => {
                return Err(FormatError::InvalidDataspaceVersion(version));
            },
        };
        let mut pos: usize = header_size;
        let dimensions = Dataspace::parse_dimensions(data, &mut pos, rank, length_size)?;
        // Read max dimensions if flags bit 0 is set
        let max_dimensions = if flags % 2 == 0 {
            None
        } else {
            let max_dims = Dataspace::parse_dimensions(data, &mut pos, rank, length_size)?;
            Some(max_dims)
        };
        Ok(Dataspace { space_type, rank, dimensions, max_dimensions })
    }

    /// Parse dimension sizes from HDF5 message bytes.
    fn parse_dimensions(data: &[u8], pos: &mut usize, rank: u8, length_size: u8) -> (r: Result<
        Vec<u64>,
        FormatError,
    >)
        requires
            *old(pos) <= 100000,
        ensures
            match r {
                Ok(dims) => lengths_at(
                    data@,
                    *old(pos) as int,
                    rank as nat,
                    length_size,
                    Seq::empty(),
                ) == Ok::<Seq<u64>, ErrorModel>(dims@) && *final(pos) == *old(pos) + rank
                    * length_size,
                Err(e) => lengths_at(
                    data@,
                    *old(pos) as int,
                    rank as nat,
                    length_size,
                    Seq::empty(),
                ) == Err::<Seq<u64>, ErrorModel>(e.deep_view()),
            },
    {
        let mut dims: Vec<u64> = Vec::new();
        let mut left: u8 = rank;
        let ghost start = *pos as int;
        assert(dims@ =~= Seq::<u64>::empty());
        proof {
            assert((rank - left) * length_size == 0) by (nonlinear_arith)
                requires
                    rank == left,
            ;
        }
        while left > 0
            invariant
                left <= rank,
                start == *old(pos),
                start <= 100000,
                *pos == start + (rank - left) * length_size,
                (rank - left) * length_size <= 255 * 255,
                lengths_at(data@, start, rank as nat, length_size, Seq::empty()) == lengths_at(
                    data@,
                    *pos as int,
                    left as nat,
                    length_size,
                    dims@,
                ),
            decreases left,
        {
            let val = read_length(data, *pos, length_size)?;
            dims.push(val);
            *pos += length_size as usize;
            proof {
                assert((rank - left) * length_size + length_size == (rank - (left - 1))
                    * length_size) by (nonlinear_arith);
                assert((rank - (left - 1)) * length_size <= 255 * 255) by (nonlinear_arith)
                    requires
                        0 < left <= rank,
                ;
            }
            left -= 1;
        }
        assert((rank - left) * length_size == rank * length_size) by (nonlinear_arith)
            requires
                left == 0,
        ;
        Ok(dims)
    }

    /// Serialize dataspace to HDF5 message bytes (v2 format).
    pub fn serialize(&self, length_size: u8) -> (buf: Vec<u8>)
        ensures
            buf@ == self.deep_view().bytes(length_size),
    {
        let mut buf: Vec<u8> = Vec::new();
        buf.push(2);  // version 2
        buf.push(self.rank);
        let flags: u8 = if self.max_dimensions.is_some() {
            0x01
        } else {
            0x00
        };
        buf.push(flags);
        let type_byte: u8 = match self.space_type {
            DataspaceType::Scalar => 0,
            DataspaceType::Simple => 1,
            DataspaceType::Null => 2,
        };
        buf.push(type_byte);
        assert(buf@ =~= seq![2u8, self.rank, flags, self.deep_view().type_byte()]);
        Dataspace::write_lengths(&mut buf, &self.dimensions, length_size);
        if let Some(max_dims) = &self.max_dimensions {
            Dataspace::write_lengths(&mut buf, max_dims, length_size);
        }
        buf
    }

    fn write_lengths(buf: &mut Vec<u8>, dims: &Vec<u64>, size: u8)
        ensures
            final(buf)@ == old(buf)@ + lengths_bytes(dims@, 0, size),
    {
        let mut k: usize = 0;
        while k < dims.len()
            invariant
                k <= dims@.len(),
                buf@ + lengths_bytes(dims@, k as int, size) =~= old(buf)@ + lengths_bytes(
                    dims@,
                    0,
                    size,
                ),
            decreases dims@.len() - k,
        {
            let ghost before = buf@;
            put_address(buf, dims[k], size);
            proof {
                let a = crate::bytes::address_bytes(dims@[k as int], size);
                let b = lengths_bytes(dims@, k + 1, size);
                assert(before + a + b =~= before + (a + b));
            }
            k += 1;
        }
        assert(buf@ + lengths_bytes(dims@, k as int, size) =~= buf@);
    }

    /// Total number of elements. Scalar = 1, Null = 0.
    pub fn num_elements(&self) -> (n: u64)
        requires
            self.space_type == DataspaceType::Simple ==> is_countable(self.dimensions@),
        ensures
            n == self.deep_view().elements(),
    {
        match self.space_type {
            DataspaceType::Null => 0,
            DataspaceType::Scalar => 1,
            DataspaceType::Simple => {
                if self.dimensions.len() == 0 {
                    0
                } else {
                    dims_product(&self.dimensions)
                }
            },
        }
    }
}

/// The product of all dimensions.
pub fn dims_product(dims: &Vec<u64>) -> (n: u64)
    requires
        is_countable(dims@),
    ensures
        n == product(dims@, dims@.len() as int),
{
    let mut n: u64 = 1;
    let mut k: usize = 0;
    while k < dims.len()
        invariant
            k <= dims@.len(),
            is_countable(dims@),
            n == product(dims@, k as int),
        decreases dims@.len() - k,
    {
        assert(product(dims@, k + 1) <= u64::MAX);
        n = n * dims[k];
        k += 1;
    }
    n
}

/// The product of all dimensions, unless a product of leading dimensions exceeds 64 bits.
pub fn checked_product(dims: &[u64]) -> (r: Option<u64>)
    ensures
        r is Some <==> is_countable(dims@),
        r matches Some(n) ==> n == product(dims@, dims@.len() as int),
{
    let mut n: u64 = 1;
    let mut k: usize = 0;
    while k < dims.len()
        invariant
            k <= dims@.len(),
            n == product(dims@, k as int),
            forall|j: int| 0 <= j <= k ==> #[trigger] product(dims@, j) <= u64::MAX,
        decreases dims@.len() - k,
    {
        match n.checked_mul(dims[k]) {
            Some(p) => {
                n = p;
            },
            None => {
                assert(product(dims@, k + 1) > u64::MAX);
                return None;
            },
        }
        k += 1;
    }
    Some(n)
}

// ---- Laws ----

proof fn lemma_lengths_round_trip(
    d: Seq<u8>,
    pos: int,
    dims: Seq<u64>,
    from: int,
    ls: u8,
    rest: Seq<u8>,
)
    requires
        crate::superblock::is_size(ls),
        0 <= pos <= d.len(),
        0 <= from <= dims.len(),
        forall|i: int| 0 <= i < dims.len() ==> #[trigger] dims[i] < crate::bytes::pow256(ls as nat),
        d.subrange(pos, d.len() as int) == lengths_bytes(dims, from, ls) + rest,
    ensures
        lengths_at(d, pos, (dims.len() - from) as nat, ls, dims.subrange(0, from)) == Ok::<
            Seq<u64>,
            ErrorModel,
        >(dims),
        lengths_bytes(dims, from, ls).len() == (dims.len() - from) * ls,
        pos + (dims.len() - from) * ls <= d.len(),
        d.subrange(pos + (dims.len() - from) * ls, d.len() as int) == rest,
    decreases dims.len() - from,
{
    if from < dims.len() {
        let a = crate::bytes::le_bytes(dims[from] as nat, ls as nat);
        let b = lengths_bytes(dims, from + 1, ls);
        crate::bytes::lemma_le_bytes_len(dims[from] as nat, ls as nat);
        assert(a + b + rest =~= a + (b + rest));
        crate::bytes::lemma_peel(d, pos, a, b + rest);
        crate::utils::lemma_uint_round_trip(d, pos, dims[from] as nat, ls);
        assert(length_at(d, pos, ls) == Ok::<u64, ErrorModel>(dims[from]));
        lemma_lengths_round_trip(d, pos + ls, dims, from + 1, ls, rest);
        assert(dims.subrange(0, from).push(dims[from]) =~= dims.subrange(0, from + 1));
        assert((dims.len() - from) * ls == ls + (dims.len() - (from + 1)) * ls)
            by (nonlinear_arith);
    } else {
        assert(dims.subrange(0, from) =~= dims);
        assert((dims.len() - from) * ls == 0) by (nonlinear_arith)
            requires
                dims.len() == from,
        ;
        assert(lengths_bytes(dims, from, ls) + rest =~= rest);
    }
}

/// Parsing the bytes of a dataspace gives it back, whatever follows them.
#[verifier::spinoff_prover]
#[verifier::rlimit(60)]
pub proof fn law_dataspace_round_trip(m: DataspaceModel, ls: u8, rest: Seq<u8>)
    requires
        m.representable(ls),
    ensures
        dataspace_of(m.bytes(ls) + rest, ls) == Ok::<DataspaceModel, ErrorModel>(m),
{
    let d = m.bytes(ls) + rest;
    let flags = if m.max_dimensions is Some {
        1u8
    } else {
        0u8
    };
    let head = seq![2u8, m.rank, flags, m.type_byte()];
    let a = lengths_bytes(m.dimensions, 0, ls);
    let tail = match m.max_dimensions {
        Some(dims) => lengths_bytes(dims, 0, ls) + rest,
        None => rest,
    };
    assert(d =~= head + (a + tail));
    assert(d.subrange(0, d.len() as int) =~= d);
    crate::bytes::lemma_peel(d, 0, head, a + tail);
    assert(head[0] == 2 && head[1] == m.rank && head[2] == flags && head[3] == m.type_byte());
    assert(d.subrange(0, 4)[0] == d[0] && d.subrange(0, 4)[1] == d[1] && d.subrange(0, 4)[2] == d[2]
        && d.subrange(0, 4)[3] == d[3]);
    lemma_lengths_round_trip(d, 4, m.dimensions, 0, ls, tail);
    assert(m.dimensions.subrange(0, 0) =~= Seq::<u64>::empty());
    if let Some(dims) = m.max_dimensions {
        lemma_lengths_round_trip(d, 4 + m.rank * ls, dims, 0, ls, rest);
        assert(dims.subrange(0, 0) =~= Seq::<u64>::empty());
    }
}

} // verus!

//! Row-major grids: strides, the chunks of a grid, and the elements that a chunk covers.

use vstd::prelude::*;
use vstd::arithmetic::div_mod::*;
use vstd::arithmetic::mul::*;

verus! {

/// The product of the first `n` extents.
pub open spec fn total(dims: Seq<usize>, n: int) -> nat
    decreases n,
{
    if n <= 0 {
        1
    } else {
        total(dims, n - 1) * dims[n - 1] as nat
    }
}

/// The product of the extents from the `d`-th on.
pub open spec fn tail(dims: Seq<usize>, d: int) -> nat
    decreases dims.len() - d,
{
    if d >= dims.len() {
        1
    } else {
        dims[d] as nat * tail(dims, d + 1)
    }
}

/// Whether the product of the leading extents never exceeds the machine word.
pub open spec fn prefixes_fit(dims: Seq<usize>) -> bool {
    forall|n: int| 0 <= n <= dims.len() ==> #[trigger] total(dims, n) <= usize::MAX
}

/// Whether all strides fit in the machine word.
pub open spec fn strides_fit(dims: Seq<usize>) -> bool {
    forall|d: int| 1 <= d <= dims.len() ==> #[trigger] tail(dims, d) <= usize::MAX
}

/// Whether `strides` holds the row-major strides of `dims`.
pub open spec fn are_strides(strides: Seq<usize>, dims: Seq<usize>) -> bool {
    &&& strides.len() == dims.len()
    &&& forall|d: int| 0 <= d < dims.len() ==> #[trigger] strides[d] == tail(dims, d + 1)
}

/// `values` as machine words.
pub open spec fn words(values: Seq<u64>) -> Seq<usize> {
    Seq::new(values.len(), |i: int| values[i] as usize)
}

/// The first `n` of `values` as machine words.
pub open spec fn words32(values: Seq<u32>, n: int) -> Seq<usize> {
    Seq::new(n as nat, |i: int| values[i] as usize)
}

/// The first `n` of `values`, widened.
pub open spec fn widened(values: Seq<u32>, n: int) -> Seq<u64> {
    Seq::new(n as nat, |i: int| values[i] as u64)
}

/// The product of the leading extents times the product of the others is the product of all.
pub proof fn lemma_total_tail(dims: Seq<usize>, n: int)
    requires
        0 <= n <= dims.len(),
    ensures
        total(dims, n) * tail(dims, n) == tail(dims, 0),
    decreases n,
{
    if n > 0 {
        lemma_total_tail(dims, n - 1);
        let a = total(dims, n - 1) as int;
        let b = dims[n - 1] as int;
        let c = tail(dims, n) as int;
        assert((a * b) * c == a * (b * c)) by (nonlinear_arith);
    } else {
        lemma_mul_basics(tail(dims, 0) as int);
    }
}

/// The product of all extents, from either end.
pub proof fn lemma_total_is_tail(dims: Seq<usize>)
    ensures
        total(dims, dims.len() as int) == tail(dims, 0),
{
    lemma_total_tail(dims, dims.len() as int);
    lemma_mul_basics(total(dims, dims.len() as int) as int);
}

/// The row-major strides of `dims`.
pub fn row_strides(dims: &Vec<usize>) -> (strides: Vec<usize>)
    requires
        strides_fit(dims@),
    ensures
        are_strides(strides@, dims@),
{
    let rank: usize = dims.len();
    let mut strides: Vec<usize> = Vec::with_capacity(rank);
    let mut k: usize = 0;
    while k < rank
        invariant
            k <= rank,
            strides@.len() == k,
        decreases rank - k,
    {
        strides.push(1);
        k += 1;
    }
    let mut d: usize = rank;
    let mut stride: usize = 1;
    while d > 0
        invariant
            d <= rank,
            rank == dims@.len(),
            strides@.len() == rank,
            strides_fit(dims@),
            d > 0 ==> stride == tail(dims@, d as int),
            forall|j: int| d <= j < rank ==> #[trigger] strides@[j] == tail(dims@, j + 1),
        decreases d,
    {
        d -= 1;
        strides.set(d, stride);
        if d > 0 {
            proof {
                assert(tail(dims@, d as int) <= usize::MAX);
                lemma_mul_is_commutative(dims@[d as int] as int, stride as int);
            }
            stride = stride * dims[d];
        }
    }
    strides
}

/// The product of all extents.
pub fn extent_product(dims: &Vec<usize>) -> (n: usize)
    requires
        prefixes_fit(dims@),
    ensures
        n == total(dims@, dims@.len() as int),
{
    let mut n: usize = 1;
    let mut k: usize = 0;
    while k < dims.len()
        invariant
            k <= dims@.len(),
            prefixes_fit(dims@),
            n == total(dims@, k as int),
        decreases dims@.len() - k,
    {
        assert(total(dims@, k + 1) <= usize::MAX);
        n = n * dims[k];
        k += 1;
    }
    n
}

/// The product of all extents, unless a product of leading extents exceeds the machine word.
pub fn checked_total(dims: &Vec<usize>) -> (r: Option<usize>)
    ensures
        r is Some <==> prefixes_fit(dims@),
        r matches Some(n) ==> n == tail(dims@, 0),
{
    let mut n: usize = 1;
    let mut k: usize = 0;
    while k < dims.len()
        invariant
            k <= dims@.len(),
            n == total(dims@, k as int),
            forall|j: int| 0 <= j <= k ==> #[trigger] total(dims@, j) <= usize::MAX,
        decreases dims@.len() - k,
    {
        match n.checked_mul(dims[k]) {
            Some(p) => {
                n = p;
            },
            None => {
                assert(total(dims@, k + 1) > usize::MAX);
                return None;
            },
        }
        k += 1;
    }
    proof {
        lemma_total_is_tail(dims@);
    }
    Some(n)
}

/// The product of the extents from the `from`-th on, unless a product of trailing ones exceeds the
/// machine word.
pub fn checked_tail(dims: &Vec<usize>, from: usize) -> (r: Option<usize>)
    requires
        from <= dims@.len(),
    ensures
        r is Some <==> forall|d: int|
            from <= d <= dims@.len() ==> #[trigger] tail(dims@, d) <= usize::MAX,
        r matches Some(n) ==> n == tail(dims@, from as int),
{
    let mut n: usize = 1;
    let mut d: usize = dims.len();
    while d > from
        invariant
            from <= d <= dims@.len(),
            n == tail(dims@, d as int),
            forall|j: int| d <= j <= dims@.len() ==> #[trigger] tail(dims@, j) <= usize::MAX,
        decreases d,
    {
        match dims[d - 1].checked_mul(n) {
            Some(p) => {
                n = p;
            },
            None => {
                assert(tail(dims@, d - 1) > usize::MAX);
                return None;
            },
        }
        d -= 1;
    }
    Some(n)
}

/// The values as machine words.
pub fn to_words(values: &Vec<u64>) -> (r: Vec<usize>)
    ensures
        r@ == words(values@),
{
    let mut r: Vec<usize> = Vec::with_capacity(values.len());
    let mut k: usize = 0;
    while k < values.len()
        invariant
            k <= values@.len(),
            r@.len() == k,
            forall|i: int| 0 <= i < k ==> #[trigger] r@[i] == values@[i] as usize,
        decreases values@.len() - k,
    {
        r.push(values[k] as usize);
        k += 1;
    }
    assert(r@ =~= words(values@));
    r
}

/// The first `n` values as machine words.
pub fn to_words32(values: &Vec<u32>, n: usize) -> (r: Vec<usize>)
    requires
        n <= values@.len(),
    ensures
        r@ == words32(values@, n as int),
{
    let mut r: Vec<usize> = Vec::with_capacity(n);
    let mut k: usize = 0;
    while k < n
        invariant
            k <= n,
            n <= values@.len(),
            r@.len() == k,
            forall|i: int| 0 <= i < k ==> #[trigger] r@[i] == values@[i] as usize,
        decreases n - k,
    {
        r.push(values[k] as usize);
        k += 1;
    }
    assert(r@ =~= words32(values@, n as int));
    r
}

// ---- The chunks of a grid ----

/// `a / b`, rounded up.
pub open spec fn ceil_div(a: int, b: int) -> int {
    if a % b == 0 {
        a / b
    } else {
        a / b + 1
    }
}

/// `a / b`, rounded up.
pub fn ceil_quotient(a: u64, b: u64) -> (q: u64)
    requires
        b > 0,
    ensures
        q == ceil_div(a as int, b as int),
        q <= a,
        a > 0 ==> q > 0,
        b * q < a + b,
{
    proof {
        lemma_ceil_div(a as int, b as int);
    }
    if a % b == 0 {
        a / b
    } else {
        a / b + 1
    }
}

pub proof fn lemma_ceil_div(a: int, b: int)
    requires
        a >= 0,
        b > 0,
    ensures
        0 <= ceil_div(a, b) <= a,
        a > 0 ==> ceil_div(a, b) > 0,
        b * ceil_div(a, b) < a + b,
        b * ceil_div(a, b) >= a,
{
    lemma_fundamental_div_mod(a, b);
    let q = a / b;
    let r = a % b;
    assert(b * (q + 1) == b * q + b) by (nonlinear_arith);
    assert(q >= 0) by {
        lemma_div_pos_is_pos(a, b);
    }
    assert(b * q >= q) by (nonlinear_arith)
        requires
            b >= 1,
            q >= 0,
    ;
    assert(a > 0 && r == 0 ==> q > 0) by (nonlinear_arith)
        requires
            a == b * q + r,
            q >= 0,
    ;
}

/// The number of chunks along each of the `chunk.len()` axes.
pub open spec fn counts_of(dims: Seq<u64>, chunk: Seq<u64>) -> Seq<u64> {
    Seq::new(chunk.len(), |i: int| ceil_div(dims[i] as int, chunk[i] as int) as u64)
}

/// The offsets along the first `n` axes of the chunk with the given index in row-major order.
pub open spec fn offsets_to(index: int, counts: Seq<u64>, chunk: Seq<u64>, n: int) -> Seq<u64>
    decreases n,
{
    if n <= 0 {
        Seq::empty()
    } else {
        offsets_to(index / counts[n - 1] as int, counts, chunk, n - 1).push(
            ((index % counts[n - 1] as int) * chunk[n - 1]) as u64,
        )
    }
}

/// The offsets of the chunk with the given index in row-major order.
pub open spec fn offsets_of(index: int, counts: Seq<u64>, chunk: Seq<u64>) -> Seq<u64> {
    offsets_to(index, counts, chunk, counts.len() as int)
}

/// Whether every axis has a chunk, and every offset of a chunk fits in 64 bits.
pub open spec fn is_grid(counts: Seq<u64>, chunk: Seq<u64>) -> bool {
    &&& counts.len() <= chunk.len()
    &&& forall|i: int| 0 <= i < counts.len() ==> #[trigger] counts[i] > 0
    &&& forall|i: int|
        0 <= i < counts.len() ==> (#[trigger] counts[i] - 1) * chunk[i] <= u64::MAX
}

/// The number of chunks along each axis.
pub fn chunk_counts(dims: &[u64], chunk: &Vec<u64>) -> (counts: Vec<u64>)
    requires
        chunk@.len() <= dims@.len(),
        forall|i: int| 0 <= i < chunk@.len() ==> #[trigger] chunk@[i] > 0,
    ensures
        counts@ == counts_of(dims@, chunk@),
{
    let mut counts: Vec<u64> = Vec::with_capacity(chunk.len());
    let mut k: usize = 0;
    while k < chunk.len()
        invariant
            k <= chunk@.len() <= dims@.len(),
            forall|i: int| 0 <= i < chunk@.len() ==> #[trigger] chunk@[i] > 0,
            counts@.len() == k,
            forall|i: int|
                0 <= i < k ==> #[trigger] counts@[i] == ceil_div(
                    dims@[i] as int,
                    chunk@[i] as int,
                ) as u64,
        decreases chunk@.len() - k,
    {
        assert(chunk@[k as int] > 0);
        counts.push(ceil_quotient(dims[k], chunk[k]));
        k += 1;
    }
    assert(counts@ =~= counts_of(dims@, chunk@));
    counts
}

/// A non-empty data set has chunks along every axis, with offsets inside it.
pub proof fn lemma_counts_are_grid(dims: Seq<u64>, chunk: Seq<u64>)
    requires
        chunk.len() <= dims.len(),
        forall|i: int| 0 <= i < chunk.len() ==> #[trigger] chunk[i] > 0,
        forall|i: int| 0 <= i < chunk.len() ==> #[trigger] dims[i] > 0,
    ensures
        is_grid(counts_of(dims, chunk), chunk),
{
    let counts = counts_of(dims, chunk);
    assert forall|i: int| 0 <= i < counts.len() implies #[trigger] counts[i] > 0 && (counts[i] - 1)
        * chunk[i] <= u64::MAX by {
        let a = dims[i] as int;
        let b = chunk[i] as int;
        assert(dims[i] > 0 && chunk[i] > 0);
        lemma_ceil_div(a, b);
        let q = ceil_div(a, b);
        assert(counts[i] == q);
        assert((q - 1) * b == b * q - b) by (nonlinear_arith);
    }
}

/// Convert a linear chunk index to the offsets of that chunk.
pub fn grid_offsets(index: u64, counts: &[u64], chunk: &[u64]) -> (offsets: Vec<u64>)
    requires
        is_grid(counts@, chunk@),
    ensures
        offsets@ == offsets_of(index as int, counts@, chunk@),
{
    let rank: usize = counts.len();
    let mut offsets: Vec<u64> = Vec::with_capacity(rank);
    let mut k: usize = 0;
    while k < rank
        invariant
            k <= rank,
            offsets@.len() == k,
        decreases rank - k,
    {
        offsets.push(0);
        k += 1;
    }
    let mut remaining: u64 = index;
    let mut d: usize = rank;
    let ghost goal = offsets_of(index as int, counts@, chunk@);
    assert(offsets@.subrange(d as int, rank as int) =~= Seq::<u64>::empty());
    assert(offsets_to(remaining as int, counts@, chunk@, d as int) + offsets@.subrange(
        d as int,
        rank as int,
    ) =~= goal);
    while d > 0
        invariant
            d <= rank,
            rank == counts@.len(),
            offsets@.len() == rank,
            is_grid(counts@, chunk@),
            offsets_to(remaining as int, counts@, chunk@, d as int) + offsets@.subrange(
                d as int,
                rank as int,
            ) =~= goal,
        decreases d,
    {
        let ghost before = offsets@;
        d -= 1;
        let n: u64 = counts[d];
        assert(counts@[d as int] > 0);
        let chunk_idx: u64 = remaining % n;
        let ghost r = remaining;
        proof {
            assert(chunk_idx * chunk@[d as int] <= (n - 1) * chunk@[d as int]) by (nonlinear_arith)
                requires
                    chunk_idx <= n - 1,
                    chunk@[d as int] >= 0,
            ;
        }
        remaining = remaining / n;
        offsets.set(d, chunk_idx * chunk[d]);
        proof {
            let a = offsets_to(remaining as int, counts@, chunk@, d as int);
            let v = ((r as int % n as int) * chunk@[d as int]) as u64;
            assert(offsets@[d as int] == v);
            assert(offsets_to(r as int, counts@, chunk@, d + 1) == a.push(v));
            assert(a + offsets@.subrange(d as int, rank as int) =~= a.push(v) + before.subrange(
                d + 1,
                rank as int,
            ));
        }
    }
    assert(offsets_to(remaining as int, counts@, chunk@, 0) + offsets@.subrange(0, rank as int)
        =~= offsets@);
    offsets
}

/// The widened values.
pub fn widen(values: &[u32], n: usize) -> (r: Vec<u64>)
    requires
        n <= values@.len(),
    ensures
        r@ == widened(values@, n as int),
{
    let mut r: Vec<u64> = Vec::with_capacity(n);
    let mut k: usize = 0;
    while k < n
        invariant
            k <= n,
            n <= values@.len(),
            r@.len() == k,
            forall|i: int| 0 <= i < k ==> #[trigger] r@[i] == values@[i] as u64,
        decreases n - k,
    {
        r.push(values[k] as u64);
        k += 1;
    }
    assert(r@ =~= widened(values@, n as int));
    r
}

// ---- The elements that a chunk covers ----

/// The element of the data set that is element `f` of the chunk at `off`, counted from axis `d`
/// on; none where the chunk reaches beyond the data set.
pub open spec fn place(
    f: int,
    d: int,
    off: Seq<usize>,
    chunk: Seq<usize>,
    dims: Seq<usize>,
) -> Option<int>
    decreases chunk.len() - d,
{
    if d >= chunk.len() {
        Some(0)
    } else {
        let stride = tail(chunk, d + 1) as int;
        let g = off[d] + f / stride;
        if g >= dims[d] {
            None
        } else {
            match place(f % stride, d + 1, off, chunk, dims) {
                None => None,
                Some(p) => Some(g * tail(dims, d + 1) + p),
            }
        }
    }
}

/// The element of the chunk at `off` that is element `p` of the data set, counted from axis `d`
/// on; none where the chunk does not hold it.
pub open spec fn inside(
    p: int,
    d: int,
    off: Seq<usize>,
    chunk: Seq<usize>,
    dims: Seq<usize>,
) -> Option<int>
    decreases chunk.len() - d,
{
    if d >= chunk.len() {
        if p == 0 {
            Some(0)
        } else {
            None
        }
    } else {
        let stride = tail(dims, d + 1) as int;
        let g = p / stride;
        let c = g - off[d];
        if stride == 0 || g >= dims[d] || c < 0 || c >= chunk[d] {
            None
        } else {
            match inside(p % stride, d + 1, off, chunk, dims) {
                None => None,
                Some(f) => Some(c * tail(chunk, d + 1) + f),
            }
        }
    }
}

/// The place of an element of a chunk lies inside the chunk, at that element.
pub proof fn lemma_place_inside(
    f: int,
    d: int,
    off: Seq<usize>,
    chunk: Seq<usize>,
    dims: Seq<usize>,
)
    requires
        0 <= d <= chunk.len(),
        off.len() == chunk.len() == dims.len(),
        0 <= f < tail(chunk, d),
    ensures
        place(f, d, off, chunk, dims) matches Some(p) ==> 0 <= p < tail(dims, d) && inside(
            p,
            d,
            off,
            chunk,
            dims,
        ) == Some(f),
    decreases chunk.len() - d,
{
    if d < chunk.len() {
        let cs = tail(chunk, d + 1) as int;
        let ds = tail(dims, d + 1) as int;
        let n = chunk[d] as int;
        assert(cs > 0) by (nonlinear_arith)
            requires
                n * cs > 0,
                n >= 0,
        ;
        let c = f / cs;
        lemma_fundamental_div_mod(f, cs);
        lemma_mod_bound(f, cs);
        assert(0 <= c < n) by (nonlinear_arith)
            requires
                f == cs * c + f % cs,
                0 <= f % cs < cs,
                0 <= f < n * cs,
        ;
        lemma_place_inside(f % cs, d + 1, off, chunk, dims);
        if let Some(q) = place(f % cs, d + 1, off, chunk, dims) {
            let g = off[d] + c;
            if g < dims[d] {
                lemma_fundamental_div_mod_converse(g * ds + q, ds, g, q);
                let m = dims[d] as int;
                assert(0 <= g * ds + q < m * ds) by (nonlinear_arith)
                    requires
                        0 <= g < m,
                        0 <= q < ds,
                ;
                assert(c * cs == cs * c) by (nonlinear_arith);
            }
        }
    }
}

/// An element that a chunk holds is the place of its element in the chunk.
pub proof fn lemma_inside_place(
    p: int,
    d: int,
    off: Seq<usize>,
    chunk: Seq<usize>,
    dims: Seq<usize>,
)
    requires
        0 <= d <= chunk.len(),
        off.len() == chunk.len() == dims.len(),
        0 <= p,
    ensures
        inside(p, d, off, chunk, dims) matches Some(f) ==> 0 <= f < tail(chunk, d) && place(
            f,
            d,
            off,
            chunk,
            dims,
        ) == Some(p),
    decreases chunk.len() - d,
{
    if d < chunk.len() {
        let cs = tail(chunk, d + 1) as int;
        let ds = tail(dims, d + 1) as int;
        if ds > 0 {
            let g = p / ds;
            let c = g - off[d];
            lemma_fundamental_div_mod(p, ds);
            lemma_mod_bound(p, ds);
            lemma_inside_place(p % ds, d + 1, off, chunk, dims);
            if let Some(e) = inside(p % ds, d + 1, off, chunk, dims) {
                if g < dims[d] && 0 <= c < chunk[d] {
                    let n = chunk[d] as int;
                    lemma_fundamental_div_mod_converse(c * cs + e, cs, c, e);
                    assert(0 <= c * cs + e < n * cs) by (nonlinear_arith)
                        requires
                            0 <= c < n,
                            0 <= e < cs,
                    ;
                    assert(g * ds == ds * g) by (nonlinear_arith);
                }
            }
        }
    }
}

/// `out` with the bytes of the chunk at `off` in the place of the elements that the chunk holds.
pub open spec fn overlaid(
    out: Seq<u8>,
    data: Seq<u8>,
    off: Seq<usize>,
    chunk: Seq<usize>,
    dims: Seq<usize>,
    size: int,
) -> Seq<u8> {
    overlaid_to(out, data, off, chunk, dims, size, tail(chunk, 0) as int)
}

/// `out` with the bytes of the first `n` elements of the chunk at `off` in their place.
pub open spec fn overlaid_to(
    out: Seq<u8>,
    data: Seq<u8>,
    off: Seq<usize>,
    chunk: Seq<usize>,
    dims: Seq<usize>,
    size: int,
    n: int,
) -> Seq<u8> {
    Seq::new(
        out.len(),
        |k: int|
            match inside(k / size, 0, off, chunk, dims) {
                Some(f) => if f < n && f * size + size <= data.len() {
                    data[f * size + k % size]
                } else {
                    out[k]
                },
                None => out[k],
            },
    )
}

/// Finds the element of the data set that is element `flat_idx` of the chunk.
pub fn find_place(
    flat_idx: usize,
    chunk_offsets: &Vec<usize>,
    chunk_dims: &Vec<usize>,
    ds_dims: &Vec<usize>,
    ds_strides: &Vec<usize>,
    chunk_strides: &Vec<usize>,
) -> (r: Option<usize>)
    requires
        chunk_offsets@.len() == chunk_dims@.len() == ds_dims@.len(),
        are_strides(ds_strides@, ds_dims@),
        are_strides(chunk_strides@, chunk_dims@),
        flat_idx < tail(chunk_dims@, 0),
        tail(ds_dims@, 0) <= usize::MAX,
    ensures
        r == match place(flat_idx as int, 0, chunk_offsets@, chunk_dims@, ds_dims@) {
            Some(p) => Some(p as usize),
            None => None::<usize>,
        },
        place(flat_idx as int, 0, chunk_offsets@, chunk_dims@, ds_dims@) matches Some(p) ==> 0
            <= p <= usize::MAX,
{
    let rank: usize = chunk_dims.len();
    let mut remaining: usize = flat_idx;
    let mut ds_flat: usize = 0;
    let mut d: usize = 0;
    let ghost goal = place(flat_idx as int, 0, chunk_offsets@, chunk_dims@, ds_dims@);
    proof {
        lemma_place_inside(flat_idx as int, 0, chunk_offsets@, chunk_dims@, ds_dims@);
    }
    while d < rank
        invariant
            d <= rank,
            rank == chunk_dims@.len(),
            chunk_offsets@.len() == chunk_dims@.len() == ds_dims@.len(),
            are_strides(ds_strides@, ds_dims@),
            are_strides(chunk_strides@, chunk_dims@),
            remaining < tail(chunk_dims@, d as int),
            ds_flat + tail(ds_dims@, d as int) <= tail(ds_dims@, 0),
            tail(ds_dims@, 0) <= usize::MAX,
            goal == place(flat_idx as int, 0, chunk_offsets@, chunk_dims@, ds_dims@),
            goal matches Some(p) ==> 0 <= p < tail(ds_dims@, 0),
            goal == match place(
                remaining as int,
                d as int,
                chunk_offsets@,
                chunk_dims@,
                ds_dims@,
            ) {
                Some(p) => Some(ds_flat + p),
                None => None::<int>,
            },
        decreases rank - d,
    {
        let stride: usize = chunk_strides[d];
        let ghost cs = tail(chunk_dims@, d + 1) as int;
        let ghost ds = tail(ds_dims@, d + 1) as int;
        let ghost n = chunk_dims@[d as int] as int;
        let ghost before = remaining as int;
        proof {
            assert(stride == cs);
            assert(cs > 0) by (nonlinear_arith)
                requires
                    n * cs > 0,
                    n >= 0,
            ;
        }
        let coord_in_chunk: usize = remaining / stride;
        remaining = remaining % stride;
        proof {
            lemma_fundamental_div_mod(before, cs);
            assert(coord_in_chunk < n) by (nonlinear_arith)
                requires
                    before == cs * coord_in_chunk + before % cs,
                    0 <= before % cs,
                    cs > 0,
                    before < n * cs,
            ;
        }
        let global_coord: usize = match chunk_offsets[d].checked_add(coord_in_chunk) {
            Some(coord) => coord,
            None => {
                return None;
            },
        };
        if global_coord >= ds_dims[d] {
            return None;
        }
        proof {
            let m = ds_dims@[d as int] as int;
            assert(ds_strides@[d as int] == ds);
            assert(global_coord * ds + ds <= m * ds) by (nonlinear_arith)
                requires
                    global_coord + 1 <= m,
                    ds >= 0,
            ;
            assert(global_coord * ds >= 0) by (nonlinear_arith)
                requires
                    ds >= 0,
                    global_coord >= 0,
            ;
        }
        ds_flat = ds_flat + global_coord * ds_strides[d];
        d += 1;
    }
    Some(ds_flat)
}

/// Copy chunk data into the output buffer at the correct N-D position.
pub fn copy_chunk_to_output(
    chunk_data: &[u8],
    output: &mut Vec<u8>,
    chunk_offsets: &Vec<usize>,
    chunk_dims: &Vec<usize>,
    ds_dims: &Vec<usize>,
    ds_strides: &Vec<usize>,
    chunk_strides: &Vec<usize>,
    elem_size: usize,
)
    requires
        chunk_offsets@.len() == chunk_dims@.len() == ds_dims@.len(),
        are_strides(ds_strides@, ds_dims@),
        are_strides(chunk_strides@, chunk_dims@),
        prefixes_fit(chunk_dims@),
        tail(chunk_dims@, 0) * elem_size <= usize::MAX,
        tail(ds_dims@, 0) <= usize::MAX,
        tail(ds_dims@, 0) * elem_size <= usize::MAX,
        elem_size > 0 ==> old(output)@.len() % elem_size as nat == 0,
        elem_size == 0 ==> old(output)@.len() == 0,
    ensures
        final(output)@ == overlaid(
            old(output)@,
            chunk_data@,
            chunk_offsets@,
            chunk_dims@,
            ds_dims@,
            elem_size as int,
        ),
{
    proof {
        lemma_total_is_tail(chunk_dims@);
    }
    // Iterate over all elements in the chunk using a flat index
    let chunk_total: usize = extent_product(chunk_dims);
    let ghost start = output@;
    let ghost off = chunk_offsets@;
    let ghost cd = chunk_dims@;
    let ghost dd = ds_dims@;
    let ghost es = elem_size as int;
    let mut flat_idx: usize = 0;
    proof {
        assert(overlaid_to(start, chunk_data@, off, cd, dd, es, 0) =~= start) by {
            assert forall|k: int| 0 <= k < start.len() implies overlaid_to(
                start,
                chunk_data@,
                off,
                cd,
                dd,
                es,
                0,
            )[k] == start[k] by {
                if es > 0 {
                    lemma_div_pos_is_pos(k, es);
                    lemma_inside_place(k / es, 0, off, cd, dd);
                }
            }
        }
    }
    while flat_idx < chunk_total
        invariant
            flat_idx <= chunk_total,
            chunk_total == tail(cd, 0),
            off == chunk_offsets@,
            cd == chunk_dims@,
            dd == ds_dims@,
            es == elem_size,
            off.len() == cd.len() == dd.len(),
            are_strides(ds_strides@, ds_dims@),
            are_strides(chunk_strides@, chunk_dims@),
            chunk_total * elem_size <= usize::MAX,
            tail(ds_dims@, 0) <= usize::MAX,
            tail(ds_dims@, 0) * elem_size <= usize::MAX,
            elem_size > 0 ==> start.len() % elem_size as nat == 0,
            elem_size == 0 ==> start.len() == 0,
            output@ == overlaid_to(start, chunk_data@, off, cd, dd, es, flat_idx as int),
        decreases chunk_total - flat_idx,
    {
        let ghost before = output@;
        let found = find_place(
            flat_idx,
            chunk_offsets,
            chunk_dims,
            ds_dims,
            ds_strides,
            chunk_strides,
        );
        proof {
            lemma_place_inside(flat_idx as int, 0, off, cd, dd);
            assert(flat_idx * es + es <= chunk_total * es) by (nonlinear_arith)
                requires
                    flat_idx + 1 <= chunk_total,
                    es >= 0,
            ;
            assert(flat_idx * es >= 0) by (nonlinear_arith)
                requires
                    flat_idx >= 0,
                    es >= 0,
            ;
        }
        if let Some(ds_flat) = found {
            proof {
                let t = tail(dd, 0) as int;
                assert(ds_flat * es + es <= t * es) by (nonlinear_arith)
                    requires
                        ds_flat + 1 <= t,
                        es >= 0,
                ;
                assert(ds_flat * es >= 0) by (nonlinear_arith)
                    requires
                        ds_flat >= 0,
                        es >= 0,
                ;
            }
            let src_start: usize = flat_idx * elem_size;
            let dst_start: usize = ds_flat * elem_size;
            if src_start + elem_size <= chunk_data.len() && dst_start + elem_size <= output.len() {
                copy_element(output, dst_start, chunk_data, src_start, elem_size);
            }
        }
        proof {
            assert(output@ =~= overlaid_to(start, chunk_data@, off, cd, dd, es, flat_idx + 1)) by {
                assert forall|k: int| 0 <= k < start.len() implies output@[k] == overlaid_to(
                    start,
                    chunk_data@,
                    off,
                    cd,
                    dd,
                    es,
                    flat_idx + 1,
                )[k] by {
                    lemma_step(start, chunk_data@, off, cd, dd, es, flat_idx as int, k);
                    assert(before[k] == overlaid_to(
                        start,
                        chunk_data@,
                        off,
                        cd,
                        dd,
                        es,
                        flat_idx as int,
                    )[k]);
                }
            }
        }
        flat_idx += 1;
    }
}

/// How byte `k` changes when element `n` of the chunk is copied.
proof fn lemma_step(
    start: Seq<u8>,
    data: Seq<u8>,
    off: Seq<usize>,
    chunk: Seq<usize>,
    dims: Seq<usize>,
    size: int,
    n: int,
    k: int,
)
    requires
        off.len() == chunk.len() == dims.len(),
        0 <= n < tail(chunk, 0),
        0 <= k < start.len(),
        size > 0,
        start.len() as int % size == 0,
    ensures
        ({
            let before = overlaid_to(start, data, off, chunk, dims, size, n);
            let after = overlaid_to(start, data, off, chunk, dims, size, n + 1);
            match place(n, 0, off, chunk, dims) {
                Some(p) => if n * size + size <= data.len() && p * size + size <= start.len() && p
                    * size <= k < p * size + size {
                    after[k] == data[n * size + (k - p * size)]
                } else {
                    after[k] == before[k]
                },
                None => after[k] == before[k],
            }
        }),
{
    let q = k / size;
    lemma_fundamental_div_mod(k, size);
    lemma_mod_bound(k, size);
    lemma_div_pos_is_pos(k, size);
    let len = start.len() as int;
    lemma_fundamental_div_mod(len, size);
    assert(q * size + size <= len) by (nonlinear_arith)
        requires
            k == size * q + k % size,
            0 <= k % size,
            k < len,
            len == size * (len / size) + 0,
            size > 0,
    ;
    lemma_place_inside(n, 0, off, chunk, dims);
    lemma_inside_place(q, 0, off, chunk, dims);
    if let Some(p) = place(n, 0, off, chunk, dims) {
        if p * size <= k < p * size + size {
            lemma_fundamental_div_mod_converse(k, size, p, k - p * size);
        } else {
            assert(p != q) by {
                assert(q * size == size * q) by (nonlinear_arith);
            }
        }
    }
}

/// The bytes of the chunk at `off`: those of the elements of the data set that it covers, and
/// zeros.
pub open spec fn extracted(
    raw: Seq<u8>,
    off: Seq<usize>,
    chunk: Seq<usize>,
    dims: Seq<usize>,
    size: int,
) -> Seq<u8> {
    Seq::new(
        (tail(chunk, 0) * size) as nat,
        |k: int|
            match place(k / size, 0, off, chunk, dims) {
                Some(p) => if p * size + size <= raw.len() {
                    raw[p * size + k % size]
                } else {
                    0u8
                },
                None => 0u8,
            },
    )
}

/// Extract the bytes of a chunk.
pub fn extract_chunk(
    raw_data: &[u8],
    chunk_offsets: &Vec<usize>,
    chunk_dims: &Vec<usize>,
    ds_dims: &Vec<usize>,
    ds_strides: &Vec<usize>,
    chunk_strides: &Vec<usize>,
    elem_size: usize,
) -> (bytes: Vec<u8>)
    requires
        chunk_offsets@.len() == chunk_dims@.len() == ds_dims@.len(),
        are_strides(ds_strides@, ds_dims@),
        are_strides(chunk_strides@, chunk_dims@),
        prefixes_fit(chunk_dims@),
        tail(ds_dims@, 0) <= usize::MAX,
        tail(ds_dims@, 0) * elem_size <= usize::MAX,
    ensures
        bytes@ == extracted(
            raw_data@,
            chunk_offsets@,
            chunk_dims@,
            ds_dims@,
            elem_size as int,
        ),
{
    proof {
        lemma_total_is_tail(chunk_dims@);
    }
    let chunk_total: usize = extent_product(chunk_dims);
    let ghost off = chunk_offsets@;
    let ghost cd = chunk_dims@;
    let ghost dd = ds_dims@;
    let ghost es = elem_size as int;
    let ghost goal = extracted(raw_data@, off, cd, dd, es);
    let mut bytes: Vec<u8> = Vec::new();
    let mut flat_idx: usize = 0;
    assert(0 * es == 0);
    while flat_idx < chunk_total
        invariant
            flat_idx <= chunk_total,
            chunk_total == tail(cd, 0),
            off == chunk_offsets@,
            cd == chunk_dims@,
            dd == ds_dims@,
            es == elem_size,
            goal == extracted(raw_data@, off, cd, dd, es),
            off.len() == cd.len() == dd.len(),
            are_strides(ds_strides@, ds_dims@),
            are_strides(chunk_strides@, chunk_dims@),
            tail(ds_dims@, 0) <= usize::MAX,
            tail(ds_dims@, 0) * elem_size <= usize::MAX,
            bytes@.len() == flat_idx * es,
            forall|k: int| 0 <= k < bytes@.len() ==> #[trigger] bytes@[k] == goal[k],
        decreases chunk_total - flat_idx,
    {
        let found = find_place(
            flat_idx,
            chunk_offsets,
            chunk_dims,
            ds_dims,
            ds_strides,
            chunk_strides,
        );
        let ghost before = bytes@;
        let ghost base = flat_idx * es;
        proof {
            lemma_place_inside(flat_idx as int, 0, off, cd, dd);
            assert((flat_idx + 1) * es == base + es) by (nonlinear_arith)
                requires
                    base == flat_idx * es,
            ;
            assert((flat_idx + 1) * es <= chunk_total * es) by (nonlinear_arith)
                requires
                    flat_idx + 1 <= chunk_total,
                    es >= 0,
            ;
            assert forall|j: int| 0 <= j < es implies #[trigger] (base + j) / es == flat_idx && (base
                + j) % es == j by {
                lemma_fundamental_div_mod_converse(base + j, es, flat_idx as int, j);
            }
        }
        let src_start: Option<usize> = match found {
            Some(ds_flat) => {
                proof {
                    let t = tail(dd, 0) as int;
                    assert(ds_flat * es + es <= t * es) by (nonlinear_arith)
                        requires
                            ds_flat + 1 <= t,
                            es >= 0,
                    ;
                    assert(ds_flat * es >= 0) by (nonlinear_arith)
                        requires
                            ds_flat >= 0,
                            es >= 0,
                    ;
                }
                let start: usize = ds_flat * elem_size;
                if start + elem_size <= raw_data.len() {
                    Some(start)
                } else {
                    None
                }
            },
            None => None,
        };
        match src_start {
            Some(start) => {
                crate::bytes::put_slice(
                    &mut bytes,
                    vstd::slice::slice_subrange(raw_data, start, start + elem_size),
                );
            },
            None => {
                crate::bytes::put_fill(&mut bytes, 0, elem_size);
            },
        }
        assert forall|k: int| 0 <= k < bytes@.len() implies #[trigger] bytes@[k] == goal[k] by {
            if k < base {
                assert(bytes@[k] == before[k]);
            } else {
                let j = k - base;
                assert((base + j) / es == flat_idx);
            }
        }
        flat_idx += 1;
    }
    assert(bytes@ =~= goal);
    bytes
}

/// Copies `n` bytes of `src` from `from` on to `dst` at `at`.
fn copy_element(dst: &mut Vec<u8>, at: usize, src: &[u8], from: usize, n: usize)
    requires
        at + n <= old(dst)@.len(),
        from + n <= src@.len(),
    ensures
        final(dst)@.len() == old(dst)@.len(),
        forall|k: int|
            0 <= k < old(dst)@.len() ==> #[trigger] final(dst)@[k] == if at <= k < at + n {
                src@[from + (k - at)]
            } else {
                old(dst)@[k]
            },
{
    assert(dst.len() == dst@.len());
    assert(src.len() == src@.len());
    let mut j: usize = 0;
    while j < n
        invariant
            j <= n,
            at + n <= dst@.len(),
            dst@.len() <= usize::MAX,
            from + n <= src@.len(),
            src@.len() <= usize::MAX,
            dst@.len() == old(dst)@.len(),
            forall|k: int|
                0 <= k < old(dst)@.len() ==> #[trigger] dst@[k] == if at <= k < at + j {
                    src@[from + (k - at)]
                } else {
                    old(dst)@[k]
                },
        decreases n - j,
    {
        dst.set(at + j, src[from + j]);
        j += 1;
    }
}

} // verus!

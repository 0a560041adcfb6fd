//! Raw data of data sets, and its conversion to typed values.

use vstd::prelude::*;
use vstd::slice::{slice_subrange, slice_to_vec};
use crate::bytes::byte_len;
use crate::chunk_cache::{CacheModel, ChunkCache};
use crate::chunked_read::{can_read_chunked_data, read_chunked_data, read_chunked_data_cached};
use crate::data_layout::{DataLayout, DataLayoutModel};
use crate::dataspace::{checked_product, Dataspace, DataspaceModel, DataspaceType};
use crate::datatype::{
    CompoundMemberModel,
    Datatype,
    DatatypeByteOrder,
    DatatypeModel,
    EnumMember,
    EnumMemberModel,
    ReferenceType,
    StringPadding,
};
use crate::error::{ErrorModel, FormatError};
use crate::filter_pipeline::{FilterPipeline, PipelineModel};
use crate::text::{decode_lossy, find_zero, put_hex, same_text};
use crate::utils::ensure_len;

verus! {

broadcast use vstd::std_specs::control_flow::group_control_flow_axioms;

// ---- Elements ----

/// Element `i` of data with elements of `size` bytes.
pub open spec fn element(raw: Seq<u8>, size: int, i: int) -> Seq<u8> {
    raw.subrange(i * size, (i + 1) * size)
}

/// The number of elements of `size` bytes in `raw`.
pub open spec fn element_count(raw: Seq<u8>, size: int) -> Result<nat, ErrorModel> {
    if size == 0 || raw.len() as int % size != 0 {
        Err(
            crate::utils::plain(
                FormatError::DataSizeMismatch { expected: 0, actual: raw.len() as usize },
            ),
        )
    } else {
        Ok((raw.len() as int / size) as nat)
    }
}

proof fn lemma_element_bounds(raw: Seq<u8>, size: int, i: int)
    requires
        size > 0,
        raw.len() as int % size == 0,
        0 <= i < raw.len() as int / size,
    ensures
        0 <= i * size,
        (i + 1) * size == i * size + size,
        (i + 1) * size <= raw.len(),
        element(raw, size, i).len() == size,
{
    let n = raw.len() as int / size;
    vstd::arithmetic::div_mod::lemma_fundamental_div_mod(raw.len() as int, size);
    assert(0 <= i * size && (i + 1) * size == i * size + size && (i + 1) * size <= n * size)
        by (nonlinear_arith)
        requires
            0 <= i,
            i + 1 <= n,
            size > 0,
    ;
    assert(n * size == size * n) by (nonlinear_arith);
}

fn count_elements(raw: &[u8], size: usize) -> (r: Result<usize, FormatError>)
    ensures
        match r {
            Ok(n) => element_count(raw@, size as int) == Ok::<nat, ErrorModel>(n as nat),
            Err(e) => element_count(raw@, size as int) == Err::<nat, ErrorModel>(e.deep_view()),
        },
{
    let len: usize = byte_len(raw);
    if size == 0 || len % size != 0 {
        return Err(FormatError::DataSizeMismatch { expected: 0, actual: len });
    }
    Ok(len / size)
}

fn element_at(raw: &[u8], size: usize, i: usize) -> (b: &[u8])
    requires
        size > 0,
        raw@.len() as int % size as int == 0,
        i < raw@.len() as int / size as int,
    ensures
        b@ == element(raw@, size as int, i as int),
        b@.len() == size,
{
    proof {
        lemma_element_bounds(raw@, size as int, i as int);
        assert(raw.len() == raw@.len());
    }
    let start: usize = i * size;
    slice_subrange(raw, start, start + size)
}

// ---- Numbers ----

/// The first eight bytes at most, least significant byte first.
pub open spec fn low_bytes(b: Seq<u8>, order: DatatypeByteOrder) -> Seq<u8> {
    let n = if b.len() < 8 {
        b.len() as int
    } else {
        8
    };
    match order {
        DatatypeByteOrder::BigEndian => Seq::new(n as nat, |i: int| b[n - 1 - i]),
        _ => b.subrange(0, n),
    }
}

/// The unsigned integer that the bytes hold.
pub open spec fn unsigned_value(b: Seq<u8>, order: DatatypeByteOrder) -> nat {
    crate::bytes::le_value(low_bytes(b, order))
}

/// The signed integer that the bytes hold, in two's complement.
pub open spec fn signed_value(b: Seq<u8>, order: DatatypeByteOrder) -> int {
    let u = unsigned_value(b, order);
    let p = crate::bytes::pow256(low_bytes(b, order).len());
    if 2 * u >= p {
        u - p
    } else {
        u as int
    }
}

fn low_byte(b: &[u8], order: DatatypeByteOrder, n: usize, i: usize) -> (v: u8)
    requires
        i < n <= b@.len(),
        n == low_bytes(b@, order).len(),
    ensures
        v == low_bytes(b@, order)[i as int],
{
    match order {
        DatatypeByteOrder::BigEndian => b[n - 1 - i],
        _ => b[i],
    }
}

fn read_unsigned_int(b: &[u8], order: DatatypeByteOrder) -> (v: u64)
    ensures
        v == unsigned_value(b@, order),
{
    let n: usize = if b.len() < 8 {
        b.len()
    } else {
        8
    };
    let ghost all = low_bytes(b@, order);
    let mut v: u64 = 0;
    let mut k: usize = n;
    assert(all.subrange(n as int, n as int) =~= Seq::<u8>::empty());
    while k > 0
        invariant
            k <= n <= 8,
            n <= b@.len(),
            n == all.len(),
            all == low_bytes(b@, order),
            v == crate::bytes::le_value(all.subrange(k as int, n as int)),
        decreases k,
    {
        k -= 1;
        proof {
            let tail = all.subrange(k as int, n as int);
            assert(tail.subrange(1, tail.len() as int) =~= all.subrange(k + 1, n as int));
            crate::bytes::lemma_le_value_bytes(tail);
            reveal_with_fuel(crate::bytes::pow256, 9);
        }
        v = low_byte(b, order, n, k) as u64 + 256 * v;
    }
    assert(all.subrange(0, n as int) =~= all);
    v
}

fn pow256_of(n: usize) -> (p: u64)
    requires
        n < 8,
    ensures
        p == crate::bytes::pow256(n as nat),
{
    proof {
        reveal_with_fuel(crate::bytes::pow256, 9);
    }
    match n {
        0 => 1,
        1 => 0x100,
        2 => 0x1_0000,
        3 => 0x100_0000,
        4 => 0x1_0000_0000,
        5 => 0x100_0000_0000,
        6 => 0x1_0000_0000_0000,
        _ => 0x100_0000_0000_0000,
    }
}

fn read_signed_int(b: &[u8], order: DatatypeByteOrder) -> (v: i64)
    requires
        b@.len() <= 8,
    ensures
        v == signed_value(b@, order),
{
    let u: u64 = read_unsigned_int(b, order);
    let n: usize = b.len();
    proof {
        crate::bytes::lemma_le_value_bytes(low_bytes(b@, order));
        reveal_with_fuel(crate::bytes::pow256, 9);
    }
    if n == 8 {
        if u >= 0x8000_0000_0000_0000 {
            let w: u64 = u - 0x8000_0000_0000_0000;
            return (w as i64) + i64::MIN;
        }
        return u as i64;
    }
    let p: u64 = pow256_of(n);
    if 2 * u >= p {
        u as i64 - p as i64
    } else {
        u as i64
    }
}

/// Whether the elements are integers or floating-point numbers.
pub open spec fn is_numeric(m: DatatypeModel) -> bool {
    m is FixedPoint || m is FloatingPoint
}

/// The number of numeric elements in `raw`, or why there are none.
pub open spec fn numeric_count(raw: Seq<u8>, m: DatatypeModel, expected: &'static str) -> Result<
    nat,
    ErrorModel,
> {
    if !is_numeric(m) {
        Err(
            crate::utils::plain(FormatError::TypeMismatch { expected, actual: m.class_name() }),
        )
    } else {
        element_count(raw, m.size() as int)
    }
}

/// Whether there are no elements that are too wide to be extended to a signed integer.
pub open spec fn is_extendable(raw: Seq<u8>, m: DatatypeModel) -> bool {
    match element_count(raw, m.size() as int) {
        Ok(n) => is_numeric(m) && n > 0 ==> m.size() <= 8,
        Err(e) => true,
    }
}

/// The elements of `raw` as signed integers.
pub open spec fn signed_values(raw: Seq<u8>, m: DatatypeModel, expected: &'static str) -> Result<
    Seq<i64>,
    ErrorModel,
> {
    match numeric_count(raw, m, expected) {
        Err(e) => Err(e),
        Ok(n) => Ok(
            Seq::new(
                n,
                |i: int| signed_value(element(raw, m.size() as int, i), m.order()) as i64,
            ),
        ),
    }
}

/// The elements of `raw` as unsigned integers.
pub open spec fn unsigned_values(raw: Seq<u8>, m: DatatypeModel) -> Result<Seq<u64>, ErrorModel> {
    match numeric_count(raw, m, "FixedPoint (unsigned)") {
        Err(e) => Err(e),
        Ok(n) => Ok(
            Seq::new(
                n,
                |i: int| unsigned_value(element(raw, m.size() as int, i), m.order()) as u64,
            ),
        ),
    }
}

fn count_numbers(raw: &[u8], datatype: &Datatype, expected: &'static str) -> (r: Result<
    usize,
    FormatError,
>)
    ensures
        match r {
            Ok(n) => numeric_count(raw@, datatype.model(), expected) == Ok::<nat, ErrorModel>(
                n as nat,
            ),
            Err(e) => numeric_count(raw@, datatype.model(), expected) == Err::<nat, ErrorModel>(
                e.deep_view(),
            ),
        },
{
    match datatype {
        Datatype::FixedPoint { .. } => {},
        Datatype::FloatingPoint { .. } => {},
        _ => {
            return Err(
                FormatError::TypeMismatch { expected, actual: datatype.class_name() },
            );
        },
    }
    count_elements(raw, datatype.type_size() as usize)
}

fn read_signed(raw: &[u8], datatype: &Datatype, expected: &'static str) -> (r: Result<
    Vec<i64>,
    FormatError,
>)
    requires
        is_extendable(raw@, datatype.model()),
    ensures
        crate::error::outcome(r) == signed_values(raw@, datatype.model(), expected),
{
    let count: usize = count_numbers(raw, datatype, expected)?;
    let size: usize = datatype.type_size() as usize;
    let order = datatype.byte_order();
    let ghost m = datatype.model();
    let mut result: Vec<i64> = Vec::with_capacity(count);
    let mut i: usize = 0;
    while i < count
        invariant
            i <= count,
            is_extendable(raw@, m),
            is_numeric(m),
            size == m.size(),
            order == m.order(),
            element_count(raw@, size as int) == Ok::<nat, ErrorModel>(count as nat),
            result@.len() == i,
            forall|k: int|
                0 <= k < i ==> #[trigger] result@[k] == signed_value(
                    element(raw@, size as int, k),
                    order,
                ) as i64,
        decreases count - i,
    {
        result.push(read_signed_int(element_at(raw, size, i), order));
        i += 1;
    }
    assert(signed_values(raw@, m, expected) is Ok);
    assert(result.deep_view() =~= signed_values(raw@, m, expected)->Ok_0);
    Ok(result)
}

/// Convert raw bytes to `i64` values.
pub fn read_as_i64(raw: &[u8], datatype: &Datatype) -> (r: Result<Vec<i64>, FormatError>)
    requires
        is_extendable(raw@, datatype.model()),
    ensures
        crate::error::outcome(r) == signed_values(raw@, datatype.model(), "FixedPoint (signed)"),
{
    read_signed(raw, datatype, "FixedPoint (signed)")
}

/// Convert raw bytes to `u64` values.
pub fn read_as_u64(raw: &[u8], datatype: &Datatype) -> (r: Result<Vec<u64>, FormatError>)
    ensures
        crate::error::outcome(r) == unsigned_values(raw@, datatype.model()),
{
    let count: usize = count_numbers(raw, datatype, "FixedPoint (unsigned)")?;
    let size: usize = datatype.type_size() as usize;
    let order = datatype.byte_order();
    let ghost m = datatype.model();
    let mut result: Vec<u64> = Vec::with_capacity(count);
    let mut i: usize = 0;
    while i < count
        invariant
            i <= count,
            size == m.size(),
            order == m.order(),
            element_count(raw@, size as int) == Ok::<nat, ErrorModel>(count as nat),
            result@.len() == i,
            forall|k: int|
                0 <= k < i ==> #[trigger] result@[k] == unsigned_value(
                    element(raw@, size as int, k),
                    order,
                ) as u64,
        decreases count - i,
    {
        result.push(read_unsigned_int(element_at(raw, size, i), order));
        i += 1;
    }
    assert(unsigned_values(raw@, m) is Ok);
    assert(result.deep_view() =~= unsigned_values(raw@, m)->Ok_0);
    Ok(result)
}

/// The elements of `raw` as signed integers of 32 bits.
pub open spec fn narrow_values(raw: Seq<u8>, m: DatatypeModel) -> Result<Seq<i32>, ErrorModel> {
    match signed_values(raw, m, "FixedPoint") {
        Err(e) => Err(e),
        Ok(values) => Ok(Seq::new(values.len(), |i: int| values[i] as i32)),
    }
}

/// Convert raw bytes to `i32` values. Of a wider value the low 32 bits are kept.
pub fn read_as_i32(raw: &[u8], datatype: &Datatype) -> (r: Result<Vec<i32>, FormatError>)
    requires
        is_extendable(raw@, datatype.model()),
    ensures
        crate::error::outcome(r) == narrow_values(raw@, datatype.model()),
{
    let values = read_signed(raw, datatype, "FixedPoint")?;
    let mut result: Vec<i32> = Vec::with_capacity(values.len());
    let mut i: usize = 0;
    while i < values.len()
        invariant
            i <= values@.len(),
            result@.len() == i,
            forall|k: int| 0 <= k < i ==> #[trigger] result@[k] == values@[k] as i32,
        decreases values@.len() - i,
    {
        result.push(values[i] as i32);
        i += 1;
    }
    assert(values.deep_view() =~= values@);
    assert(result.deep_view() =~= narrow_values(raw@, datatype.model())->Ok_0);
    Ok(result)
}

/// A number as it is stored: the bits of a floating-point number, or an integer.
#[derive(Debug, Clone, Copy, PartialEq, Eq, Structural)]
pub enum Number {
    /// The bits of a single-precision floating-point number.
    Single(u32),
    /// The bits of a double-precision floating-point number.
    Double(u64),
    /// A signed integer.
    Signed(i64),
    /// An unsigned integer.
    Unsigned(u64),
}

impl DeepView for Number {
    type V = Number;

    open spec fn deep_view(&self) -> Number {
        *self
    }
}

/// The number that an element holds, if it is an integer or of a precision that is known.
pub open spec fn number_of(b: Seq<u8>, m: DatatypeModel) -> Option<Number> {
    match m {
        DatatypeModel::FloatingPoint { size, byte_order, .. } => if size == 4 {
            Some(Number::Single(unsigned_value(b, byte_order) as u32))
        } else if size == 8 {
            Some(Number::Double(unsigned_value(b, byte_order) as u64))
        } else {
            None
        },
        DatatypeModel::FixedPoint { byte_order, signed, .. } => if signed {
            Some(Number::Signed(signed_value(b, byte_order) as i64))
        } else {
            Some(Number::Unsigned(unsigned_value(b, byte_order) as u64))
        },
        _ => None,
    }
}

/// Whether the elements are integers or of a precision that is known.
pub open spec fn is_known(m: DatatypeModel) -> bool {
    m is FixedPoint || m is FloatingPoint && (m.size() == 4 || m.size() == 8)
}

/// The numbers that `raw` holds. Where the precision is unknown, the first element gives the error
/// `unknown`.
pub open spec fn numbers(
    raw: Seq<u8>,
    m: DatatypeModel,
    expected: &'static str,
    unknown: ErrorModel,
) -> Result<Seq<Number>, ErrorModel> {
    match numeric_count(raw, m, expected) {
        Err(e) => Err(e),
        Ok(n) => if n > 0 && !is_known(m) {
            Err(unknown)
        } else {
            Ok(Seq::new(n, |i: int| number_of(element(raw, m.size() as int, i), m)->0))
        },
    }
}

/// Whether no element is too wide to be extended, where the elements are signed integers.
pub open spec fn are_extendable(raw: Seq<u8>, m: DatatypeModel) -> bool {
    m matches DatatypeModel::FixedPoint { signed, .. } ==> signed ==> is_extendable(raw, m)
}

fn read_number(b: &[u8], datatype: &Datatype) -> (r: Option<Number>)
    requires
        b@.len() == datatype.model().size(),
        datatype.model() matches DatatypeModel::FixedPoint { signed, .. } ==> signed ==> b@.len()
            <= 8,
    ensures
        r == number_of(b@, datatype.model()),
        r is Some <==> is_known(datatype.model()),
{
    match datatype {
        Datatype::FloatingPoint { size, byte_order, .. } => {
            if *size == 4 {
                let v: u64 = read_unsigned_int(b, *byte_order);
                proof {
                    crate::bytes::lemma_le_value_bytes(low_bytes(b@, *byte_order));
                    reveal_with_fuel(crate::bytes::pow256, 5);
                }
                Some(Number::Single(v as u32))
            } else if *size == 8 {
                Some(Number::Double(read_unsigned_int(b, *byte_order)))
            } else {
                None
            }
        },
        Datatype::FixedPoint { byte_order, signed, .. } => {
            if *signed {
                Some(Number::Signed(read_signed_int(b, *byte_order)))
            } else {
                Some(Number::Unsigned(read_unsigned_int(b, *byte_order)))
            }
        },
        _ => None,
    }
}

fn read_numbers(raw: &[u8], datatype: &Datatype, expected: &'static str, single: bool) -> (r: Result<
    Vec<Number>,
    FormatError,
>)
    requires
        are_extendable(raw@, datatype.model()),
    ensures
        crate::error::outcome(r) == numbers(
            raw@,
            datatype.model(),
            expected,
            unknown_precision(datatype.model(), single),
        ),
{
    let count: usize = count_numbers(raw, datatype, expected)?;
    let size: usize = datatype.type_size() as usize;
    let ghost m = datatype.model();
    let mut result: Vec<Number> = Vec::with_capacity(count);
    let mut i: usize = 0;
    while i < count
        invariant
            i <= count,
            m == datatype.model(),
            is_numeric(m),
            are_extendable(raw@, m),
            size == m.size(),
            numeric_count(raw@, m, expected) == Ok::<nat, ErrorModel>(count as nat),
            element_count(raw@, size as int) == Ok::<nat, ErrorModel>(count as nat),
            result@.len() == i,
            i > 0 ==> is_known(m),
            forall|k: int|
                0 <= k < i ==> #[trigger] result@[k] == number_of(
                    element(raw@, size as int, k),
                    m,
                )->0,
        decreases count - i,
    {
        match read_number(element_at(raw, size, i), datatype) {
            Some(n) => result.push(n),
            None => {
                if single {
                    return Err(
                        FormatError::TypeMismatch {
                            expected: "numeric",
                            actual: datatype.class_name(),
                        },
                    );
                }
                return Err(FormatError::DataSizeMismatch { expected: 8, actual: size });
            },
        }
        i += 1;
    }
    assert(result.deep_view() =~= Seq::new(
        count as nat,
        |i: int| number_of(element(raw@, m.size() as int, i), m)->0,
    ));
    Ok(result)
}

/// The error for floating-point numbers of unknown precision.
pub open spec fn unknown_precision(m: DatatypeModel, single: bool) -> ErrorModel {
    if single {
        crate::utils::plain(
            FormatError::TypeMismatch { expected: "numeric", actual: m.class_name() },
        )
    } else {
        crate::utils::plain(
            FormatError::DataSizeMismatch { expected: 8, actual: m.size() as usize },
        )
    }
}

/// The numbers that raw bytes hold, for conversion to double precision.
pub fn numbers_for_f64(raw: &[u8], datatype: &Datatype) -> (r: Result<Vec<Number>, FormatError>)
    requires
        are_extendable(raw@, datatype.model()),
    ensures
        crate::error::outcome(r) == numbers(
            raw@,
            datatype.model(),
            "FloatingPoint or FixedPoint",
            unknown_precision(datatype.model(), false),
        ),
{
    read_numbers(raw, datatype, "FloatingPoint or FixedPoint", false)
}

/// The numbers that raw bytes hold, for conversion to single precision.
pub fn numbers_for_f32(raw: &[u8], datatype: &Datatype) -> (r: Result<Vec<Number>, FormatError>)
    requires
        are_extendable(raw@, datatype.model()),
    ensures
        crate::error::outcome(r) == numbers(
            raw@,
            datatype.model(),
            "FloatingPoint",
            unknown_precision(datatype.model(), true),
        ),
{
    read_numbers(raw, datatype, "FloatingPoint", true)
}

// ---- Strings ----

/// The length of the first `n` of the bytes without those equal to `fill` at their end.
pub open spec fn trimmed(b: Seq<u8>, fill: u8, n: int) -> int
    decreases n,
{
    if n <= 0 {
        0
    } else if b[n - 1] == fill {
        trimmed(b, fill, n - 1)
    } else {
        n
    }
}

/// The length of the text in a fixed-length string.
pub open spec fn text_end(b: Seq<u8>, padding: StringPadding) -> int {
    match padding {
        StringPadding::NullTerminate => crate::text::zero_from(b, 0),
        StringPadding::NullPad => trimmed(b, 0, b.len() as int),
        StringPadding::SpacePad => trimmed(b, 32, b.len() as int),
    }
}

/// The text of a fixed-length string.
pub open spec fn string_of(b: Seq<u8>, padding: StringPadding) -> Seq<char> {
    crate::text::lossy_text(b.subrange(0, text_end(b, padding)))
}

/// The fixed-length strings that `raw` holds.
pub open spec fn strings_of(raw: Seq<u8>, m: DatatypeModel) -> Result<Seq<Seq<char>>, ErrorModel> {
    match m {
        DatatypeModel::String { size, padding, .. } => if size == 0 {
            Ok(Seq::empty())
        } else {
            match element_count(raw, size as int) {
                Err(e) => Err(e),
                Ok(n) => Ok(Seq::new(n, |i: int| string_of(element(raw, size as int, i), padding))),
            }
        },
        _ => Err(
            crate::utils::plain(
                FormatError::TypeMismatch { expected: "String", actual: m.class_name() },
            ),
        ),
    }
}

fn trim(b: &[u8], fill: u8) -> (n: usize)
    ensures
        n == trimmed(b@, fill, b@.len() as int),
        n <= b@.len(),
{
    let mut n: usize = b.len();
    while n > 0 && b[n - 1] == fill
        invariant
            n <= b@.len(),
            trimmed(b@, fill, n as int) == trimmed(b@, fill, b@.len() as int),
        decreases n,
    {
        n -= 1;
    }
    n
}

fn read_string(b: &[u8], padding: StringPadding) -> (text: String)
    ensures
        text@ == string_of(b@, padding),
{
    let end: usize = match padding {
        StringPadding::NullTerminate => find_zero(b, 0),
        StringPadding::NullPad => trim(b, 0),
        StringPadding::SpacePad => trim(b, 32),
    };
    decode_lossy(slice_subrange(b, 0, end))
}

/// Read fixed-length strings from raw bytes.
pub fn read_as_strings(raw: &[u8], datatype: &Datatype) -> (r: Result<Vec<String>, FormatError>)
    ensures
        crate::error::outcome(r) == strings_of(raw@, datatype.model()),
{
    match datatype {
        Datatype::String { size, padding, .. } => {
            let size: usize = *size as usize;
            let padding = *padding;
            let mut result: Vec<String> = Vec::new();
            if size == 0 {
                assert(result.deep_view() =~= Seq::<Seq<char>>::empty());
                return Ok(result);
            }
            let count: usize = count_elements(raw, size)?;
            let mut i: usize = 0;
            while i < count
                invariant
                    i <= count,
                    size > 0,
                    element_count(raw@, size as int) == Ok::<nat, ErrorModel>(count as nat),
                    result@.len() == i,
                    forall|k: int|
                        0 <= k < i ==> #[trigger] result@[k]@ == string_of(
                            element(raw@, size as int, k),
                            padding,
                        ),
                decreases count - i,
            {
                result.push(read_string(element_at(raw, size, i), padding));
                i += 1;
            }
            assert(result.deep_view() =~= strings_of(raw@, datatype.model())->Ok_0);
            Ok(result)
        },
        _ => Err(
            FormatError::TypeMismatch { expected: "String", actual: datatype.class_name() },
        ),
    }
}

// ---- Compound types ----

/// A single field extracted from compound data, containing the raw bytes for that field
/// across all elements.
#[derive(Debug)]
pub struct CompoundFieldData {
    /// Field name.
    pub name: String,
    /// Datatype of this field.
    pub datatype: Datatype,
    /// Raw bytes for this field across all elements (len = num_elements * field_type_size).
    pub raw_data: Vec<u8>,
}

/// The content of a [`CompoundFieldData`].
pub struct CompoundFieldModel {
    pub name: Seq<char>,
    pub datatype: DatatypeModel,
    pub raw_data: Seq<u8>,
}

impl DeepView for CompoundFieldData {
    type V = CompoundFieldModel;

    open spec fn deep_view(&self) -> CompoundFieldModel {
        CompoundFieldModel {
            name: self.name@,
            datatype: self.datatype.model(),
            raw_data: self.raw_data@,
        }
    }
}

impl Clone for CompoundFieldData {
    fn clone(&self) -> (copy: Self)
        ensures
            copy.deep_view() == self.deep_view(),
    {
        CompoundFieldData {
            name: self.name.clone(),
            datatype: self.datatype.clone(),
            raw_data: slice_to_vec(self.raw_data.as_slice()),
        }
    }
}

/// The bytes of a field in the first `n` elements.
pub open spec fn field_bytes(raw: Seq<u8>, size: int, offset: int, width: int, n: int) -> Seq<u8>
    decreases n,
{
    if n <= 0 {
        Seq::empty()
    } else {
        let start = (n - 1) * size + offset;
        field_bytes(raw, size, offset, width, n - 1) + raw.subrange(start, start + width)
    }
}

/// The data of a field of `n` elements.
pub open spec fn field_of(raw: Seq<u8>, size: int, member: CompoundMemberModel, n: nat) -> CompoundFieldModel {
    CompoundFieldModel {
        name: member.name,
        datatype: member.datatype,
        raw_data: field_bytes(
            raw,
            size,
            member.byte_offset as usize as int,
            member.datatype.size() as int,
            n as int,
        ),
    }
}

/// The fields of the compound elements that `raw` holds.
pub open spec fn fields_of(raw: Seq<u8>, m: DatatypeModel) -> Result<
    Seq<CompoundFieldModel>,
    ErrorModel,
> {
    match m {
        DatatypeModel::Compound { size, members } => if size == 0 {
            Ok(Seq::empty())
        } else {
            match element_count(raw, size as int) {
                Err(e) => Err(e),
                Ok(n) => Ok(
                    Seq::new(
                        members.len(),
                        |k: int| field_of(raw, size as int, members[k], n),
                    ),
                ),
            }
        },
        _ => Err(
            crate::utils::plain(
                FormatError::TypeMismatch { expected: "Compound", actual: m.class_name() },
            ),
        ),
    }
}

/// Whether each field of each element lies within the data.
pub open spec fn fields_fit(raw: Seq<u8>, m: DatatypeModel) -> bool {
    m matches DatatypeModel::Compound { size, members } ==> match element_count(
        raw,
        size as int,
    ) {
        Ok(n) => n > 0 ==> forall|k: int|
            0 <= k < members.len() ==> (n - 1) * size + ((
            #[trigger] members[k]).byte_offset as usize) + members[k].datatype.size()
                <= raw.len(),
        Err(e) => true,
    }
}

fn read_field(raw: &[u8], size: usize, offset: usize, width: usize, count: usize) -> (data: Vec<u8>)
    requires
        count > 0 ==> (count - 1) * size + offset + width <= raw@.len(),
    ensures
        data@ == field_bytes(raw@, size as int, offset as int, width as int, count as int),
{
    let mut data: Vec<u8> = Vec::new();
    let mut i: usize = 0;
    while i < count
        invariant
            i <= count,
            count > 0 ==> (count - 1) * size + offset + width <= raw@.len(),
            data@ == field_bytes(raw@, size as int, offset as int, width as int, i as int),
        decreases count - i,
    {
        proof {
            assert(raw.len() == raw@.len());
            assert(0 <= i * size <= (count - 1) * size) by (nonlinear_arith)
                requires
                    0 <= i <= count - 1,
                    size >= 0,
            ;
        }
        let start: usize = i * size + offset;
        crate::bytes::put_slice(&mut data, slice_subrange(raw, start, start + width));
        i += 1;
    }
    data
}

/// Read compound dataset and return all fields as separate data vectors.
///
/// Each returned `CompoundFieldData` contains the raw bytes for that field
/// across all elements, suitable for further typed conversion with `read_as_i64`, etc.
pub fn read_compound_fields(raw: &[u8], datatype: &Datatype) -> (r: Result<
    Vec<CompoundFieldData>,
    FormatError,
>)
    requires
        fields_fit(raw@, datatype.model()),
    ensures
        crate::error::outcome(r) == fields_of(raw@, datatype.model()),
{
    let ghost m = datatype.model();
    match datatype {
        Datatype::Compound { size, members } => {
            proof {
                crate::datatype::lemma_compound_model(*size, *members);
            }
            let ghost models = crate::datatype::member_models(members@);
            let size: usize = *size as usize;
            let mut fields: Vec<CompoundFieldData> = Vec::new();
            if size == 0 {
                assert(fields.deep_view() =~= Seq::<CompoundFieldModel>::empty());
                return Ok(fields);
            }
            let count: usize = count_elements(raw, size)?;
            let mut k: usize = 0;
            while k < members.len()
                invariant
                    k <= members@.len(),
                    models == crate::datatype::member_models(members@),
                    count > 0 ==> forall|k: int|
                        0 <= k < models.len() ==> (count - 1) * size + ((
                        #[trigger] models[k]).byte_offset as usize) + models[k].datatype.size()
                            <= raw@.len(),
                    fields@.len() == k,
                    forall|j: int|
                        0 <= j < k ==> (#[trigger] fields@[j]).deep_view() == field_of(
                            raw@,
                            size as int,
                            models[j],
                            count as nat,
                        ),
                decreases members@.len() - k,
            {
                let member = &members[k];
                assert(models[k as int] == member.model());
                let raw_data = read_field(
                    raw,
                    size,
                    member.byte_offset as usize,
                    member.datatype.type_size() as usize,
                    count,
                );
                fields.push(
                    CompoundFieldData {
                        name: member.name.clone(),
                        datatype: member.datatype.clone(),
                        raw_data,
                    },
                );
                k += 1;
            }
            assert(fields.deep_view() =~= fields_of(raw@, m)->Ok_0);
            Ok(fields)
        },
        _ => Err(
            FormatError::TypeMismatch { expected: "Compound", actual: datatype.class_name() },
        ),
    }
}

/// The first field at or behind the `from`-th with the given name.
pub open spec fn named_field(
    fields: Seq<CompoundFieldModel>,
    name: Seq<char>,
    from: int,
) -> Option<CompoundFieldModel>
    decreases fields.len() - from,
{
    if from >= fields.len() {
        None
    } else if fields[from].name == name {
        Some(fields[from])
    } else {
        named_field(fields, name, from + 1)
    }
}

/// The field with the given name of the compound elements that `raw` holds.
pub open spec fn field_named(raw: Seq<u8>, m: DatatypeModel, name: Seq<char>) -> Result<
    CompoundFieldModel,
    ErrorModel,
> {
    match fields_of(raw, m) {
        Err(e) => Err(e),
        Ok(fields) => match named_field(fields, name, 0) {
            Some(field) => Ok(field),
            None => Err(ErrorModel::PathNotFound(name)),
        },
    }
}

/// Extract a single field by name from compound raw data.
pub fn read_compound_field(raw: &[u8], datatype: &Datatype, field_name: &str) -> (r: Result<
    CompoundFieldData,
    FormatError,
>)
    requires
        fields_fit(raw@, datatype.model()),
    ensures
        crate::error::outcome(r) == field_named(raw@, datatype.model(), field_name@),
{
    let fields = read_compound_fields(raw, datatype)?;
    let ghost all = fields.deep_view();
    let mut k: usize = 0;
    while k < fields.len()
        invariant
            k <= fields@.len(),
            all == fields.deep_view(),
            fields_of(raw@, datatype.model()) == Ok::<Seq<CompoundFieldModel>, ErrorModel>(all),
            named_field(all, field_name@, 0) == named_field(all, field_name@, k as int),
        decreases fields@.len() - k,
    {
        assert(all[k as int] == fields@[k as int].deep_view());
        if same_text(fields[k].name.as_str(), field_name) {
            return Ok(fields[k].clone());
        }
        k += 1;
    }
    Err(FormatError::PathNotFound(field_name.to_owned()))
}

// ---- Enumerations ----

/// A single value from an enum dataset, containing both the integer value and string name.
#[derive(Debug)]
pub struct EnumValue {
    /// The string name for this enum value.
    pub name: String,
    /// The raw integer value.
    pub raw_value: Vec<u8>,
}

/// The content of an [`EnumValue`].
pub struct EnumValueModel {
    pub name: Seq<char>,
    pub raw_value: Seq<u8>,
}

impl DeepView for EnumValue {
    type V = EnumValueModel;

    open spec fn deep_view(&self) -> EnumValueModel {
        EnumValueModel { name: self.name@, raw_value: self.raw_value@ }
    }
}

impl Clone for EnumValue {
    fn clone(&self) -> (copy: Self)
        ensures
            copy.deep_view() == self.deep_view(),
    {
        EnumValue {
            name: self.name.clone(),
            raw_value: slice_to_vec(self.raw_value.as_slice()),
        }
    }
}

/// The name that the last of the first `n` members with the given value has.
pub open spec fn member_name(members: Seq<EnumMemberModel>, value: Seq<u8>, n: int) -> Option<
    Seq<char>,
>
    decreases n,
{
    if n <= 0 {
        None
    } else if members[n - 1].value == value {
        Some(members[n - 1].name)
    } else {
        member_name(members, value, n - 1)
    }
}

/// The name of an enumeration value: that of a member, or its bytes in hexadecimal digits.
pub open spec fn value_name(members: Seq<EnumMemberModel>, value: Seq<u8>) -> Seq<char> {
    match member_name(members, value, members.len() as int) {
        Some(name) => name,
        None => "UNKNOWN(0x"@ + crate::text::hex(value, value.len() as int) + ")"@,
    }
}

/// The enumeration values that `raw` holds.
pub open spec fn enum_values(raw: Seq<u8>, m: DatatypeModel) -> Result<
    Seq<EnumValueModel>,
    ErrorModel,
> {
    match m {
        DatatypeModel::Enumeration { size, members, .. } => if size == 0 {
            Ok(Seq::empty())
        } else {
            match element_count(raw, size as int) {
                Err(e) => Err(e),
                Ok(n) => Ok(
                    Seq::new(
                        n,
                        |i: int|
                            EnumValueModel {
                                name: value_name(members, element(raw, size as int, i)),
                                raw_value: element(raw, size as int, i),
                            },
                    ),
                ),
            }
        },
        _ => Err(
            crate::utils::plain(
                FormatError::TypeMismatch { expected: "Enumeration", actual: m.class_name() },
            ),
        ),
    }
}

fn find_name(members: &Vec<EnumMember>, value: &[u8]) -> (name: String)
    ensures
        name@ == value_name(crate::datatype::enum_models(members@), value@),
{
    let ghost models = crate::datatype::enum_models(members@);
    let mut n: usize = members.len();
    while n > 0
        invariant
            n <= members@.len(),
            models == crate::datatype::enum_models(members@),
            member_name(models, value@, n as int) == member_name(
                models,
                value@,
                members@.len() as int,
            ),
        decreases n,
    {
        assert(models[n - 1] == members@[n - 1].model());
        if crate::bytes::same_bytes(members[n - 1].value.as_slice(), value) {
            return members[n - 1].name.clone();
        }
        n -= 1;
    }
    let mut name = "UNKNOWN(0x".to_owned();
    put_hex(&mut name, value);
    name.append(")");
    name
}

/// Read enum dataset values, mapping integer values to their string names.
///
/// Returns one `EnumValue` per element. Unknown values get name `UNKNOWN(hex)`. Where several
/// members have the same value, the name is that of the last.
pub fn read_enum_values(raw: &[u8], datatype: &Datatype) -> (r: Result<
    Vec<EnumValue>,
    FormatError,
>)
    ensures
        crate::error::outcome(r) == enum_values(raw@, datatype.model()),
{
    let ghost m = datatype.model();
    match datatype {
        Datatype::Enumeration { size, members, .. } => {
            let size: usize = *size as usize;
            let ghost models = crate::datatype::enum_models(members@);
            let mut result: Vec<EnumValue> = Vec::new();
            if size == 0 {
                assert(result.deep_view() =~= Seq::<EnumValueModel>::empty());
                return Ok(result);
            }
            let count: usize = count_elements(raw, size)?;
            let mut i: usize = 0;
            while i < count
                invariant
                    i <= count,
                    size > 0,
                    models == crate::datatype::enum_models(members@),
                    element_count(raw@, size as int) == Ok::<nat, ErrorModel>(count as nat),
                    result@.len() == i,
                    forall|k: int|
                        0 <= k < i ==> (#[trigger] result@[k]).deep_view() == (EnumValueModel {
                            name: value_name(models, element(raw@, size as int, k)),
                            raw_value: element(raw@, size as int, k),
                        }),
                decreases count - i,
            {
                let value = element_at(raw, size, i);
                let name = find_name(members, value);
                result.push(EnumValue { name, raw_value: slice_to_vec(value) });
                i += 1;
            }
            assert(result.deep_view() =~= enum_values(raw@, m)->Ok_0);
            Ok(result)
        },
        _ => Err(
            FormatError::TypeMismatch { expected: "Enumeration", actual: datatype.class_name() },
        ),
    }
}

/// The names of the enumeration values that `raw` holds.
pub open spec fn enum_names(raw: Seq<u8>, m: DatatypeModel) -> Result<Seq<Seq<char>>, ErrorModel> {
    match enum_values(raw, m) {
        Err(e) => Err(e),
        Ok(values) => Ok(Seq::new(values.len(), |i: int| values[i].name)),
    }
}

/// Read enum dataset and return just the string names.
pub fn read_enum_names(raw: &[u8], datatype: &Datatype) -> (r: Result<Vec<String>, FormatError>)
    ensures
        crate::error::outcome(r) == enum_names(raw@, datatype.model()),
{
    let values = read_enum_values(raw, datatype)?;
    let ghost all = values.deep_view();
    let mut names: Vec<String> = Vec::with_capacity(values.len());
    let mut i: usize = 0;
    while i < values.len()
        invariant
            i <= values@.len(),
            all == values.deep_view(),
            names@.len() == i,
            forall|k: int| 0 <= k < i ==> #[trigger] names@[k]@ == all[k].name,
        decreases values@.len() - i,
    {
        names.push(values[i].name.clone());
        i += 1;
    }
    assert(names.deep_view() =~= enum_names(raw@, datatype.model())->Ok_0);
    Ok(names)
}

// ---- References ----

/// A resolved object reference: the file address of the referenced object header.
#[derive(Debug, Clone, Copy, PartialEq, Eq, Structural)]
pub struct ObjectReference {
    /// The file address of the referenced object header.
    /// A value of `u64::MAX` (all 0xFF bytes) indicates a null reference.
    pub address: u64,
}

impl DeepView for ObjectReference {
    type V = ObjectReference;

    open spec fn deep_view(&self) -> ObjectReference {
        *self
    }
}

impl ObjectReference {
    /// Returns `true` if this is a null (unset) reference.
    pub fn is_null(&self) -> (r: bool)
        ensures
            r == (self.address == u64::MAX),
    {
        self.address == u64::MAX
    }
}

/// A region reference: raw bytes that encode a dataset selection.
#[derive(Debug, PartialEq, Eq)]
pub struct RegionReference {
    /// The raw region reference bytes. A region reference is typically 12 bytes
    /// (object address + dataspace selection) but the exact layout depends on
    /// the file's offset size and the selection type.
    pub raw: Vec<u8>,
}

impl DeepView for RegionReference {
    type V = Seq<u8>;

    open spec fn deep_view(&self) -> Seq<u8> {
        self.raw@
    }
}

impl Clone for RegionReference {
    fn clone(&self) -> (copy: Self)
        ensures
            copy.deep_view() == self.deep_view(),
    {
        RegionReference { raw: slice_to_vec(self.raw.as_slice()) }
    }
}

/// The address that the first `size` bytes of a reference hold, eight at most. Where they are all
/// 0xFF, it is undefined.
pub open spec fn reference_address(b: Seq<u8>, size: int) -> u64 {
    let n = if size < b.len() && size < 8 {
        size
    } else if b.len() < 8 {
        b.len() as int
    } else {
        8
    };
    if forall|k: int| 0 <= k < n ==> b[k] == 0xFF {
        u64::MAX
    } else {
        crate::bytes::le_value(b.subrange(0, n)) as u64
    }
}

/// The object references that `raw` holds.
pub open spec fn object_references(raw: Seq<u8>, m: DatatypeModel, offset_size: u8) -> Result<
    Seq<ObjectReference>,
    ErrorModel,
> {
    match m {
        DatatypeModel::Reference { size, ref_type: ReferenceType::Object } => if size == 0 {
            Ok(Seq::empty())
        } else {
            match element_count(raw, size as int) {
                Err(e) => Err(e),
                Ok(n) => Ok(
                    Seq::new(
                        n,
                        |i: int|
                            ObjectReference {
                                address: reference_address(
                                    element(raw, size as int, i),
                                    offset_size as int,
                                ),
                            },
                    ),
                ),
            }
        },
        _ => Err(
            crate::utils::plain(
                FormatError::TypeMismatch {
                    expected: "Reference(Object)",
                    actual: m.class_name(),
                },
            ),
        ),
    }
}

/// The region references that `raw` holds.
pub open spec fn region_references(raw: Seq<u8>, m: DatatypeModel) -> Result<
    Seq<Seq<u8>>,
    ErrorModel,
> {
    match m {
        DatatypeModel::Reference { size, ref_type: ReferenceType::DatasetRegion } => if size == 0 {
            Ok(Seq::empty())
        } else {
            match element_count(raw, size as int) {
                Err(e) => Err(e),
                Ok(n) => Ok(Seq::new(n, |i: int| element(raw, size as int, i))),
            }
        },
        _ => Err(
            crate::utils::plain(
                FormatError::TypeMismatch {
                    expected: "Reference(DatasetRegion)",
                    actual: m.class_name(),
                },
            ),
        ),
    }
}

fn read_ref_address(b: &[u8], size: usize) -> (address: u64)
    ensures
        address == reference_address(b@, size as int),
{
    let n: usize = if size < b.len() && size < 8 {
        size
    } else if b.len() < 8 {
        b.len()
    } else {
        8
    };
    let head = slice_subrange(b, 0, n);
    let mut set = true;
    let mut k: usize = 0;
    while k < n
        invariant
            k <= n <= b@.len(),
            set == (forall|j: int| 0 <= j < k ==> b@[j] == 0xFF),
        decreases n - k,
    {
        if b[k] != 0xFF {
            set = false;
        }
        k += 1;
    }
    if set {
        return u64::MAX;
    }
    let v: u64 = read_unsigned_int(head, DatatypeByteOrder::LittleEndian);
    assert(low_bytes(head@, DatatypeByteOrder::LittleEndian) =~= head@);
    v
}

/// Read object references from raw bytes.
///
/// Object references are stored as `offset_size`-byte file addresses pointing
/// to the object header of the referenced object. A reference consisting of
/// all `0xFF` bytes is a null (unset) reference.
///
/// # Arguments
/// * `raw` - raw bytes read from the dataset
/// * `datatype` - must be `Datatype::Reference` with `ReferenceType::Object`
/// * `offset_size` - the file's offset size (from superblock), typically 8
pub fn read_object_references(raw: &[u8], datatype: &Datatype, offset_size: u8) -> (r: Result<
    Vec<ObjectReference>,
    FormatError,
>)
    ensures
        crate::error::outcome(r) == object_references(raw@, datatype.model(), offset_size),
{
    let ghost m = datatype.model();
    match datatype {
        Datatype::Reference { ref_type: ReferenceType::Object, size } => {
            let size: usize = *size as usize;
            let mut result: Vec<ObjectReference> = Vec::new();
            if size == 0 {
                assert(result.deep_view() =~= Seq::<ObjectReference>::empty());
                return Ok(result);
            }
            let count: usize = count_elements(raw, size)?;
            let mut i: usize = 0;
            while i < count
                invariant
                    i <= count,
                    size > 0,
                    element_count(raw@, size as int) == Ok::<nat, ErrorModel>(count as nat),
                    result@.len() == i,
                    forall|k: int|
                        0 <= k < i ==> (#[trigger] result@[k]).address == reference_address(
                            element(raw@, size as int, k),
                            offset_size as int,
                        ),
                decreases count - i,
            {
                let address = read_ref_address(element_at(raw, size, i), offset_size as usize);
                result.push(ObjectReference { address });
                i += 1;
            }
            assert(result.deep_view() =~= object_references(raw@, m, offset_size)->Ok_0);
            Ok(result)
        },
        _ => Err(
            FormatError::TypeMismatch {
                expected: "Reference(Object)",
                actual: datatype.class_name(),
            },
        ),
    }
}

/// Read region references from raw bytes.
///
/// Region references encode a dataset selection (hyperslab, point list, etc.)
/// along with the address of the target dataset. This function returns the
/// raw bytes for each reference without decoding the selection, since the
/// full region reference format is complex and depends on the selection type.
///
/// # Arguments
/// * `raw` - raw bytes read from the dataset
/// * `datatype` - must be `Datatype::Reference` with `ReferenceType::DatasetRegion`
pub fn read_region_references(raw: &[u8], datatype: &Datatype) -> (r: Result<
    Vec<RegionReference>,
    FormatError,
>)
    ensures
        crate::error::outcome(r) == region_references(raw@, datatype.model()),
{
    let ghost m = datatype.model();
    match datatype {
        Datatype::Reference { ref_type: ReferenceType::DatasetRegion, size } => {
            let size: usize = *size as usize;
            let mut result: Vec<RegionReference> = Vec::new();
            if size == 0 {
                assert(result.deep_view() =~= Seq::<Seq<u8>>::empty());
                return Ok(result);
            }
            let count: usize = count_elements(raw, size)?;
            let mut i: usize = 0;
            while i < count
                invariant
                    i <= count,
                    size > 0,
                    element_count(raw@, size as int) == Ok::<nat, ErrorModel>(count as nat),
                    result@.len() == i,
                    forall|k: int|
                        0 <= k < i ==> (#[trigger] result@[k]).raw@ == element(
                            raw@,
                            size as int,
                            k,
                        ),
                decreases count - i,
            {
                result.push(RegionReference { raw: slice_to_vec(element_at(raw, size, i)) });
                i += 1;
            }
            assert(result.deep_view() =~= region_references(raw@, m)->Ok_0);
            Ok(result)
        },
        _ => Err(
            FormatError::TypeMismatch {
                expected: "Reference(DatasetRegion)",
                actual: datatype.class_name(),
            },
        ),
    }
}

// ---- Arrays ----

/// Read array-typed dataset elements, returning the raw base-type data.
///
/// For an array type with dimensions [D1, D2, ...] and base type T,
/// each dataset element contains D1*D2*... values of type T.
/// This function returns the raw bytes as a flat buffer that can be
/// converted with `read_as_i64`, `read_as_i32`, etc. using the base type.
pub fn read_array_flat(raw: &[u8], datatype: &Datatype) -> (r: Result<
    (Vec<u8>, Datatype, Vec<u32>),
    FormatError,
>)
    ensures
        match r {
            Ok((data, base, dims)) => datatype.model() == (DatatypeModel::Array {
                base_type: Box::new(base.model()),
                dimensions: dims@,
            }) && data@ == raw@,
            Err(e) => !(datatype.model() is Array) && e.deep_view() == crate::utils::plain(
                FormatError::TypeMismatch {
                    expected: "Array",
                    actual: datatype.model().class_name(),
                },
            ),
        },
{
    match datatype {
        Datatype::Array { base_type, dimensions } => Ok(
            (slice_to_vec(raw), (&**base_type).clone(), slice_to_vec(dimensions.as_slice())),
        ),
        _ => Err(FormatError::TypeMismatch { expected: "Array", actual: datatype.class_name() }),
    }
}

// ---- Raw data ----

/// The data of a contiguous layout.
pub open spec fn contiguous_data(
    d: Seq<u8>,
    address: Option<u64>,
    size: u64,
    expected: int,
) -> Result<Seq<u8>, ErrorModel> {
    match address {
        None => Err(crate::utils::plain(FormatError::NoDataAllocated)),
        Some(a) => {
            let p = (a as usize) as int;
            let n = (size as usize) as int;
            if n != expected {
                Err(
                    crate::utils::plain(
                        FormatError::DataSizeMismatch {
                            expected: expected as usize,
                            actual: n as usize,
                        },
                    ),
                )
            } else if !crate::utils::fits(d, p, n) {
                Err(crate::utils::eof(d, p, n))
            } else {
                Ok(d.subrange(p, p + n))
            }
        },
    }
}

/// The size of the data that the data space and the element size call for.
pub open spec fn expected_size(space: DataspaceModel, size: u32) -> int {
    (space.elements() as u64 as usize) * size
}

/// The content of a data set with the given layout.
pub open spec fn raw_data(
    d: Seq<u8>,
    layout: DataLayoutModel,
    space: DataspaceModel,
    size: u32,
    pipeline: Option<PipelineModel>,
    os: u8,
    ls: u8,
) -> Result<Seq<u8>, ErrorModel> {
    match layout {
        DataLayoutModel::Compact { data } => if data.len() != expected_size(space, size) {
            Err(
                crate::utils::plain(
                    FormatError::DataSizeMismatch {
                        expected: expected_size(space, size) as usize,
                        actual: data.len() as usize,
                    },
                ),
            )
        } else {
            Ok(data)
        },
        DataLayoutModel::Contiguous { address, size: n } => contiguous_data(
            d,
            address,
            n,
            expected_size(space, size),
        ),
        DataLayoutModel::Chunked { .. } => crate::chunked_read::chunked_data(
            d,
            layout,
            space,
            size,
            pipeline,
            os,
            ls,
        ),
        DataLayoutModel::Virtual { .. } => Err(
            crate::utils::plain(FormatError::UnsupportedVersion(0)),
        ),
    }
}

/// Whether the number of elements and the size of the data can be computed.
pub open spec fn is_sized(space: DataspaceModel, size: u32) -> bool {
    &&& space.space_type == DataspaceType::Simple ==> crate::dataspace::is_countable(
        space.dimensions,
    )
    &&& expected_size(space, size) <= usize::MAX
}

/// Whether the data set can be read: its size can be computed, and its chunks, if it has any, can
/// be read.
pub open spec fn is_readable(
    d: Seq<u8>,
    layout: DataLayoutModel,
    space: DataspaceModel,
    size: u32,
    os: u8,
    ls: u8,
) -> bool {
    &&& is_sized(space, size)
    &&& layout is Chunked ==> crate::chunked_read::chunked_readable(
        d,
        layout,
        space,
        size,
        os,
        ls,
    )
}

fn size_of_data(dataspace: &Dataspace, datatype: &Datatype) -> (n: usize)
    requires
        is_sized(dataspace.deep_view(), datatype.model().size()),
    ensures
        n == expected_size(dataspace.deep_view(), datatype.model().size()),
{
    let num_elements: usize = dataspace.num_elements() as usize;
    let elem_size: usize = datatype.type_size() as usize;
    num_elements * elem_size
}

fn contiguous_slice<'a>(
    file_data: &'a [u8],
    address: Option<u64>,
    size: u64,
    expected_size: usize,
) -> (r: Result<&'a [u8], FormatError>)
    ensures
        match r {
            Ok(data) => contiguous_data(file_data@, address, size, expected_size as int) == Ok::<
                Seq<u8>,
                ErrorModel,
            >(data@),
            Err(e) => contiguous_data(file_data@, address, size, expected_size as int) == Err::<
                Seq<u8>,
                ErrorModel,
            >(e.deep_view()),
        },
{
    let addr: usize = match address {
        Some(a) => a as usize,
        None => return Err(FormatError::NoDataAllocated),
    };
    let sz: usize = size as usize;
    if sz != expected_size {
        return Err(FormatError::DataSizeMismatch { expected: expected_size, actual: sz });
    }
    ensure_len(file_data, addr, sz)?;
    assert(file_data.len() == file_data@.len());
    Ok(slice_subrange(file_data, addr, addr + sz))
}

/// Zero-copy read of contiguous raw data, returning a borrowed slice.
///
/// For contiguous layouts, returns a direct `&[u8]` slice into `file_data`.
/// For compact or chunked layouts, returns `Ok(None)`: the caller should
/// fall back to `read_raw_data` for those.
pub fn read_raw_data_zerocopy<'a>(
    file_data: &'a [u8],
    layout: &DataLayout,
    dataspace: &Dataspace,
    datatype: &Datatype,
) -> (r: Result<Option<&'a [u8]>, FormatError>)
    requires
        is_sized(dataspace.deep_view(), datatype.model().size()),
    ensures
        match layout.deep_view() {
            DataLayoutModel::Contiguous { address, size } => {
                let data = contiguous_data(
                    file_data@,
                    address,
                    size,
                    expected_size(dataspace.deep_view(), datatype.model().size()),
                );
                match r {
                    Ok(Some(out)) => data == Ok::<Seq<u8>, ErrorModel>(out@),
                    Ok(None) => false,
                    Err(e) => data == Err::<Seq<u8>, ErrorModel>(e.deep_view()),
                }
            },
            _ => r == Ok::<Option<&'a [u8]>, FormatError>(None),
        },
{
    let expected_size = size_of_data(dataspace, datatype);
    match layout {
        DataLayout::Contiguous { address, size } => {
            let out = contiguous_slice(file_data, *address, *size, expected_size)?;
            Ok(Some(out))
        },
        _ => Ok(None),
    }
}

/// Read raw bytes for a dataset given its layout and the file data buffer.
///
/// For compact layouts, returns the inline data.
/// For contiguous layouts, reads from the address in the file buffer.
/// For chunked layouts, traverses the B-tree and assembles chunks.
pub fn read_raw_data(
    file_data: &[u8],
    layout: &DataLayout,
    dataspace: &Dataspace,
    datatype: &Datatype,
) -> (r: Result<Vec<u8>, FormatError>)
    requires
        is_readable(
            file_data@,
            layout.deep_view(),
            dataspace.deep_view(),
            datatype.model().size(),
            8,
            8,
        ),
    ensures
        crate::error::outcome(r) == raw_data(
            file_data@,
            layout.deep_view(),
            dataspace.deep_view(),
            datatype.model().size(),
            None,
            8,
            8,
        ),
{
    read_raw_data_full(file_data, layout, dataspace, datatype, None, 8, 8)
}

/// Read raw bytes with full parameters including filter pipeline and sizes.
pub fn read_raw_data_full(
    file_data: &[u8],
    layout: &DataLayout,
    dataspace: &Dataspace,
    datatype: &Datatype,
    pipeline: Option<&FilterPipeline>,
    offset_size: u8,
    length_size: u8,
) -> (r: Result<Vec<u8>, FormatError>)
    requires
        is_readable(
            file_data@,
            layout.deep_view(),
            dataspace.deep_view(),
            datatype.model().size(),
            offset_size,
            length_size,
        ),
    ensures
        crate::error::outcome(r) == raw_data(
            file_data@,
            layout.deep_view(),
            dataspace.deep_view(),
            datatype.model().size(),
            match pipeline {
                Some(p) => Some(p.deep_view()),
                None => None,
            },
            offset_size,
            length_size,
        ),
{
    let expected_size = size_of_data(dataspace, datatype);
    match layout {
        DataLayout::Compact { data } => {
            let n: usize = byte_len(data.as_slice());
            if n != expected_size {
                return Err(FormatError::DataSizeMismatch { expected: expected_size, actual: n });
            }
            let out = slice_to_vec(data.as_slice());
            assert(out.deep_view() =~= out@);
            Ok(out)
        },
        DataLayout::Contiguous { address, size } => {
            let slice = contiguous_slice(file_data, *address, *size, expected_size)?;
            let out = slice_to_vec(slice);
            assert(out.deep_view() =~= out@);
            Ok(out)
        },
        DataLayout::Chunked { .. } => {
            let r = read_chunked_data(
                file_data,
                layout,
                dataspace,
                datatype,
                pipeline,
                offset_size,
                length_size,
            );
            assert(r is Ok ==> r->Ok_0.deep_view() =~= r->Ok_0@);
            r
        },
        DataLayout::Virtual { .. } => Err(FormatError::UnsupportedVersion(0)),
    }
}

/// Whether the number of elements and the size of the data can be computed.
fn can_size(dataspace: &Dataspace, size: u32) -> (r: bool)
    ensures
        r == is_sized(dataspace.deep_view(), size),
{
    match dataspace.space_type {
        DataspaceType::Simple => {
            if checked_product(dataspace.dimensions.as_slice()).is_none() {
                return false;
            }
        },
        _ => {},
    }
    (dataspace.num_elements() as usize).checked_mul(size as usize).is_some()
}

/// Read raw bytes of a dataset of which nothing is known, as [`read_raw_data_full`] does, or give
/// nothing where the sizes and counts that the file states cannot be computed with.
pub fn read_raw_data_checked(
    file_data: &[u8],
    layout: &DataLayout,
    dataspace: &Dataspace,
    datatype: &Datatype,
    pipeline: Option<&FilterPipeline>,
    offset_size: u8,
    length_size: u8,
) -> (r: Option<Result<Vec<u8>, FormatError>>)
    ensures
        r is Some <==> is_readable(
            file_data@,
            layout.deep_view(),
            dataspace.deep_view(),
            datatype.model().size(),
            offset_size,
            length_size,
        ),
        ({
            let pl = match pipeline {
                Some(p) => Some(p.deep_view()),
                None => None,
            };
            r matches Some(data) ==> crate::error::outcome(data) == raw_data(
                file_data@,
                layout.deep_view(),
                dataspace.deep_view(),
                datatype.model().size(),
                pl,
                offset_size,
                length_size,
            )
        }),
{
    if !can_size(dataspace, datatype.type_size()) {
        return None;
    }
    match layout {
        DataLayout::Chunked { .. } => {
            if !can_read_chunked_data(
                file_data,
                layout,
                dataspace,
                datatype,
                offset_size,
                length_size,
            ) {
                return None;
            }
        },
        _ => {},
    }
    Some(
        read_raw_data_full(
            file_data,
            layout,
            dataspace,
            datatype,
            pipeline,
            offset_size,
            length_size,
        ),
    )
}

/// Whether the data set can be read through the cache.
pub open spec fn is_readable_cached(
    d: Seq<u8>,
    layout: DataLayoutModel,
    space: DataspaceModel,
    size: u32,
    pipeline: Option<PipelineModel>,
    os: u8,
    ls: u8,
    c: CacheModel,
) -> bool {
    if layout is Chunked {
        crate::chunked_read::cache_readable(d, layout, space, size, pipeline, os, ls, c)
    } else {
        is_sized(space, size)
    }
}

/// Read raw bytes with chunk cache support.
///
/// For chunked layouts the `cache` is used to avoid repeated B-tree
/// traversals and to cache decompressed chunk data.  For compact and
/// contiguous layouts this behaves identically to [`read_raw_data_full`].
pub fn read_raw_data_cached(
    file_data: &[u8],
    layout: &DataLayout,
    dataspace: &Dataspace,
    datatype: &Datatype,
    pipeline: Option<&FilterPipeline>,
    offset_size: u8,
    length_size: u8,
    cache: &mut ChunkCache,
) -> (r: Result<Vec<u8>, FormatError>)
    requires
        is_readable_cached(
            file_data@,
            layout.deep_view(),
            dataspace.deep_view(),
            datatype.model().size(),
            match pipeline {
                Some(p) => Some(p.deep_view()),
                None => None,
            },
            offset_size,
            length_size,
            old(cache)@,
        ),
    ensures
        ({
            let pl = match pipeline {
                Some(p) => Some(p.deep_view()),
                None => None,
            };
            let (data, c) = if layout.deep_view() is Chunked {
                crate::chunked_read::cached_data(
                    file_data@,
                    layout.deep_view(),
                    dataspace.deep_view(),
                    datatype.model().size(),
                    pl,
                    offset_size,
                    length_size,
                    old(cache)@,
                )
            } else {
                (
                    raw_data(
                        file_data@,
                        layout.deep_view(),
                        dataspace.deep_view(),
                        datatype.model().size(),
                        pl,
                        offset_size,
                        length_size,
                    ),
                    old(cache)@,
                )
            };
            &&& final(cache)@ == c
            &&& crate::error::outcome(r) == data
        }),
{
    match layout {
        DataLayout::Chunked { .. } => {
            let r = read_chunked_data_cached(
                file_data,
                layout,
                dataspace,
                datatype,
                pipeline,
                offset_size,
                length_size,
                cache,
            );
            assert(r is Ok ==> r->Ok_0.deep_view() =~= r->Ok_0@);
            r
        },
        _ => read_raw_data_full(
            file_data,
            layout,
            dataspace,
            datatype,
            pipeline,
            offset_size,
            length_size,
        ),
    }
}

} // verus!

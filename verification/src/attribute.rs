//! HDF5 Attribute message parsing (message type 0x000C).

use vstd::prelude::*;
use vstd::slice::{slice_subrange, slice_to_vec};
use vstd::utf8::*;
use crate::attribute_info::AttributeInfoMessage;
use crate::btree_v2::{collect_btree_v2_records, BTreeV2Header, BTreeV2Record};
use crate::bytes::{byte_len, get_u16, put_slice};
use crate::data_read;
use crate::dataspace::{Dataspace, DataspaceModel, DataspaceType};
use crate::datatype::{Datatype, DatatypeModel};
use crate::error::{ErrorModel, FormatError};
use crate::fractal_heap::FractalHeapHeader;
use crate::group_v1::find_message;
use crate::message_type::MessageType;
use crate::object_header::{HeaderMessage, HeaderMessageModel, ObjectHeader};
use crate::shared_message::{is_shared, parse_shared_ref, resolve_shared_message};
use crate::text::{decode_lossy, find_zero, same_text};
use crate::utils::{ensure_len, pad8};
use crate::vl_data;

verus! {

broadcast use vstd::std_specs::control_flow::group_control_flow_axioms;

/// A parsed HDF5 attribute message.
#[derive(Debug)]
pub struct AttributeMessage {
    /// Attribute name.
    pub name: String,
    /// Attribute datatype.
    pub datatype: Datatype,
    /// Attribute dataspace.
    pub dataspace: Dataspace,
    /// Raw attribute value data.
    pub raw_data: Vec<u8>,
}

/// The content of an [`AttributeMessage`].
pub struct AttributeModel {
    pub name: Seq<char>,
    pub datatype: DatatypeModel,
    pub dataspace: DataspaceModel,
    pub raw_data: Seq<u8>,
}

impl DeepView for AttributeMessage {
    type V = AttributeModel;

    open spec fn deep_view(&self) -> AttributeModel {
        AttributeModel {
            name: self.name@,
            datatype: self.datatype.model(),
            dataspace: self.dataspace.deep_view(),
            raw_data: self.raw_data@,
        }
    }
}

impl Clone for AttributeMessage {
    fn clone(&self) -> (copy: Self)
        ensures
            copy.deep_view() == self.deep_view(),
    {
        AttributeMessage {
            name: self.name.clone(),
            datatype: self.datatype.clone(),
            dataspace: self.dataspace.clone(),
            raw_data: slice_to_vec(self.raw_data.as_slice()),
        }
    }
}

// ---- Parsing ----

/// The name in a field: the text in front of the first zero byte.
pub open spec fn name_of(b: Seq<u8>) -> Seq<char> {
    crate::text::lossy_text(b.subrange(0, crate::text::zero_from(b, 0)))
}

/// The length of a field of `n` bytes with its padding.
pub open spec fn field_size(n: int, padded: bool) -> int {
    if padded {
        crate::utils::padded8(n)
    } else {
        n
    }
}

/// The value at `p`: as many bytes as the data space and the datatype call for, or what there is
/// if there are fewer. Where they call for none, it is all that there is.
pub open spec fn value_at(d: Seq<u8>, p: int, space: DataspaceModel, size: u32) -> Seq<u8> {
    let needed = space.elements() * size;
    if p >= d.len() {
        Seq::empty()
    } else if 0 < needed < d.len() - p {
        d.subrange(p, p + needed)
    } else {
        d.subrange(p, d.len() as int)
    }
}

/// The attribute whose fields start at `start`, behind the sizes of name, datatype and data space.
pub open spec fn attribute_from(d: Seq<u8>, start: int, padded: bool, ls: u8) -> Result<
    AttributeModel,
    ErrorModel,
> {
    let ns = crate::bytes::u16_at(d, 2) as int;
    let ts = crate::bytes::u16_at(d, 4) as int;
    let ss = crate::bytes::u16_at(d, 6) as int;
    let p = start + field_size(ns, padded);
    let q = p + field_size(ts, padded);
    if !crate::utils::fits(d, 0, start) {
        Err(crate::utils::eof(d, 0, start))
    } else if !crate::utils::fits(d, start, ns) {
        Err(crate::utils::eof(d, start, ns))
    } else if !crate::utils::fits(d, p, ts) {
        Err(crate::utils::eof(d, p, ts))
    } else {
        match crate::datatype::parsed(d.subrange(p, p + ts)) {
            Err(e) => Err(e),
            Ok((datatype, _)) => if !crate::utils::fits(d, q, ss) {
                Err(crate::utils::eof(d, q, ss))
            } else {
                match crate::dataspace::dataspace_of(d.subrange(q, q + ss), ls) {
                    Err(e) => Err(e),
                    Ok(dataspace) => Ok(
                        AttributeModel {
                            name: name_of(d.subrange(start, start + ns)),
                            datatype,
                            dataspace,
                            raw_data: value_at(
                                d,
                                q + field_size(ss, padded),
                                dataspace,
                                datatype.size(),
                            ),
                        },
                    ),
                }
            },
        }
    }
}

/// The attribute that the message `d` holds. Version 1 pads its fields to multiples of eight;
/// version 3 has one more byte in front of them.
pub open spec fn attribute_of(d: Seq<u8>, ls: u8) -> Result<AttributeModel, ErrorModel> {
    if !crate::utils::fits(d, 0, 2) {
        Err(crate::utils::eof(d, 0, 2))
    } else if d[0] == 1 {
        attribute_from(d, 8, true, ls)
    } else if d[0] == 2 {
        attribute_from(d, 8, false, ls)
    } else if d[0] == 3 {
        attribute_from(d, 9, false, ls)
    } else {
        Err(ErrorModel::Plain(FormatError::InvalidAttributeVersion(d[0])))
    }
}

/// The product of positive dimensions is positive and does not shrink.
proof fn lemma_product_grows(dims: Seq<u64>, k: int, n: int)
    requires
        0 <= k <= n <= dims.len(),
        forall|i: int| 0 <= i < dims.len() ==> #[trigger] dims[i] > 0,
    ensures
        0 < crate::dataspace::product(dims, k) <= crate::dataspace::product(dims, n),
    decreases n,
{
    if n > 0 {
        let a = crate::dataspace::product(dims, n - 1) as int;
        let b = dims[n - 1] as int;
        if k < n {
            lemma_product_grows(dims, k, n - 1);
            assert(a <= a * b) by (nonlinear_arith)
                requires
                    a >= 0,
                    b >= 1,
            ;
        } else {
            lemma_product_grows(dims, n - 1, n - 1);
            assert(a * b > 0) by (nonlinear_arith)
                requires
                    a > 0,
                    b > 0,
            ;
        }
    }
}

/// A dimension of zero makes the product zero.
proof fn lemma_product_zero(dims: Seq<u64>, k: int, n: int)
    requires
        0 <= k < n <= dims.len(),
        dims[k] == 0,
    ensures
        crate::dataspace::product(dims, n) == 0,
    decreases n,
{
    if k < n - 1 {
        lemma_product_zero(dims, k, n - 1);
    }
    let a = crate::dataspace::product(dims, n - 1) as int;
    let b = dims[n - 1] as int;
    assert(a * b == 0) by (nonlinear_arith)
        requires
            a == 0 || b == 0,
    ;
}

/// The product of the dimensions and `size`, or `cap` if that is less.
fn capped_product(dims: &Vec<u64>, size: u32, cap: usize) -> (n: usize)
    ensures
        ({
            let needed = crate::dataspace::product(dims@, dims@.len() as int) * size;
            n == (if needed < cap {
                needed
            } else {
                cap as int
            })
        }),
{
    let ghost all = crate::dataspace::product(dims@, dims@.len() as int) as int;
    if size == 0 {
        proof {
            assert(all * 0 == 0);
        }
        return 0;
    }
    let mut k: usize = 0;
    while k < dims.len()
        invariant
            k <= dims@.len(),
            all == crate::dataspace::product(dims@, dims@.len() as int),
            forall|i: int| 0 <= i < k ==> #[trigger] dims@[i] > 0,
        decreases dims@.len() - k,
    {
        if dims[k] == 0 {
            proof {
                lemma_product_zero(dims@, k as int, dims@.len() as int);
                assert(0 * size == 0);
            }
            return 0;
        }
        k += 1;
    }
    let mut n: u128 = size as u128;
    let mut j: usize = 0;
    proof {
        assert(1 * size == size);
        lemma_product_grows(dims@, 0, dims@.len() as int);
    }
    while j < dims.len()
        invariant
            j <= dims@.len(),
            size > 0,
            all == crate::dataspace::product(dims@, dims@.len() as int),
            forall|i: int| 0 <= i < dims@.len() ==> #[trigger] dims@[i] > 0,
            n == crate::dataspace::product(dims@, j as int) * size,
            n <= 0xFFFF_FFFF_FFFF_FFFF,
        decreases dims@.len() - j,
    {
        let ghost before = crate::dataspace::product(dims@, j as int) as int;
        let ghost d = dims@[j as int] as int;
        proof {
            assert(n * d <= 0xFFFF_FFFF_FFFF_FFFF * 0xFFFF_FFFF_FFFF_FFFF) by (nonlinear_arith)
                requires
                    0 <= n <= 0xFFFF_FFFF_FFFF_FFFF,
                    0 <= d <= 0xFFFF_FFFF_FFFF_FFFF,
            ;
            assert(n * d == (before * d) * size) by (nonlinear_arith)
                requires
                    n == before * size,
            ;
        }
        n = n * dims[j] as u128;
        j += 1;
        if n > 0xFFFF_FFFF_FFFF_FFFF {
            proof {
                lemma_product_grows(dims@, j as int, dims@.len() as int);
                let now = crate::dataspace::product(dims@, j as int) as int;
                assert(all * size >= now * size) by (nonlinear_arith)
                    requires
                        all >= now,
                        size > 0,
                ;
            }
            return cap;
        }
    }
    if n < cap as u128 {
        n as usize
    } else {
        cap
    }
}

/// The number of bytes that the data space and the datatype call for, or `cap` if that is less.
fn capped_size(dataspace: &Dataspace, size: u32, cap: usize) -> (n: usize)
    ensures
        ({
            let needed = dataspace.deep_view().elements() * size;
            n == (if needed < cap {
                needed
            } else {
                cap as int
            })
        }),
{
    proof {
        assert(0 * size == 0);
        assert(1 * size == size);
    }
    match dataspace.space_type {
        DataspaceType::Null => 0,
        DataspaceType::Scalar => if (size as u64) < cap as u64 {
            size as usize
        } else {
            cap
        },
        DataspaceType::Simple => if dataspace.dimensions.len() == 0 {
            0
        } else {
            capped_product(&dataspace.dimensions, size, cap)
        },
    }
}

/// Compute raw data size based on dataspace and datatype, then extract from message bytes.
fn compute_raw_data(data: &[u8], pos: usize, dataspace: &Dataspace, datatype: &Datatype) -> (raw: Vec<
    u8,
>)
    ensures
        raw@ == value_at(
            data@,
            pos as int,
            dataspace.deep_view(),
            datatype.model().size(),
        ),
{
    let len: usize = byte_len(data);
    if pos >= len {
        let none: Vec<u8> = Vec::new();
        assert(none@ =~= Seq::<u8>::empty());
        return none;
    }
    let available: usize = len - pos;
    let take: usize = capped_size(dataspace, datatype.type_size(), available);
    if take > 0 {
        slice_to_vec(slice_subrange(data, pos, pos + take))
    } else {
        // Fallback: take whatever is available
        slice_to_vec(slice_subrange(data, pos, len))
    }
}

/// Extract a name from raw bytes, stripping null terminator.
fn extract_name(bytes: &[u8]) -> (name: String)
    ensures
        name@ == name_of(bytes@),
{
    let end: usize = find_zero(bytes, 0);
    decode_lossy(slice_subrange(bytes, 0, end))
}

fn padded_size(n: usize, padded: bool) -> (r: usize)
    requires
        n <= 0xFFFF,
    ensures
        r == field_size(n as int, padded),
        r <= 0x10006,
{
    if padded {
        pad8(n)
    } else {
        n
    }
}

impl AttributeMessage {
    /// Parse an attribute message from raw message bytes.
    ///
    /// `length_size` is needed for dataspace dimension parsing.
    pub fn parse(data: &[u8], length_size: u8) -> (r: Result<AttributeMessage, FormatError>)
        ensures
            crate::error::outcome(r) == attribute_of(data@, length_size),
    {
        ensure_len(data, 0, 2)?;
        let version = data[0];
        match version {
            // version(1) + reserved(1) + name_size(2) + datatype_size(2) + dataspace_size(2) = 8
            1 => Self::parse_fields(data, 8, true, length_size),
            2 => Self::parse_fields(data, 8, false, length_size),
            // the same, and encoding(1)
            3 => Self::parse_fields(data, 9, false, length_size),
            _ => Err(FormatError::InvalidAttributeVersion(version)),
        }
    }

    fn parse_fields(data: &[u8], start: usize, padded: bool, length_size: u8) -> (r: Result<
        AttributeMessage,
        FormatError,
    >)
        requires
            8 <= start <= 9,
        ensures
            crate::error::outcome(r) == attribute_from(data@, start as int, padded, length_size),
    {
        ensure_len(data, 0, start)?;
        let name_size: usize = get_u16(data, 2) as usize;
        let datatype_size: usize = get_u16(data, 4) as usize;
        let dataspace_size: usize = get_u16(data, 6) as usize;
        // Name
        ensure_len(data, start, name_size)?;
        let name = extract_name(slice_subrange(data, start, start + name_size));
        let p: usize = start + padded_size(name_size, padded);
        // Datatype
        ensure_len(data, p, datatype_size)?;
        let (datatype, _) = Datatype::parse(slice_subrange(data, p, p + datatype_size))?;
        let q: usize = p + padded_size(datatype_size, padded);
        // Dataspace
        ensure_len(data, q, dataspace_size)?;
        let dataspace = Dataspace::parse(
            slice_subrange(data, q, q + dataspace_size),
            length_size,
        )?;
        let end: usize = q + padded_size(dataspace_size, padded);
        // Raw data: num_elements x type_size bytes
        let raw_data = compute_raw_data(data, end, &dataspace, &datatype);
        Ok(AttributeMessage { name, datatype, dataspace, raw_data })
    }
}

// ---- Serialization ----

/// A message with the given fields.
pub open spec fn message(
    version: u8,
    name: Seq<u8>,
    datatype: Seq<u8>,
    space: Seq<u8>,
    value: Seq<u8>,
) -> Seq<u8> {
    let head = seq![version, 0u8] + crate::bytes::le_bytes(name.len(), 2) + crate::bytes::le_bytes(
        datatype.len(),
        2,
    ) + crate::bytes::le_bytes(space.len(), 2);
    let charset = if version >= 3 {
        seq![0u8]
    } else {
        Seq::empty()
    };
    head + charset + name + datatype + space + value
}

impl AttributeModel {
    /// The bytes of the message in version 2 or 3.
    pub open spec fn bytes(self, version: u8, ls: u8) -> Seq<u8> {
        message(
            version,
            encode_utf8(self.name) + seq![0u8],
            crate::datatype::encoded(self.datatype),
            self.dataspace.bytes(ls),
            self.raw_data,
        )
    }

    /// Whether the message has room for the attribute: name, datatype and data space can be read
    /// back, their sizes fit in their fields, and the value has the size that they call for.
    pub open spec fn representable(self, ls: u8) -> bool {
        &&& crate::datatype::is_name(self.name)
        &&& crate::datatype::representable(self.datatype)
        &&& self.dataspace.representable(ls)
        &&& encode_utf8(self.name).len() < 0xFFFF
        &&& crate::datatype::encoded(self.datatype).len() <= 0xFFFF
        &&& self.dataspace.bytes(ls).len() <= 0xFFFF
        &&& self.raw_data.len() == self.dataspace.elements() * self.datatype.size()
    }
}

impl AttributeMessage {
    /// Serialize attribute message (v2 format, no padding).
    pub fn serialize(&self, length_size: u8) -> (buf: Vec<u8>)
        ensures
            buf@ == self.deep_view().bytes(2, length_size),
    {
        self.serialize_version(2, length_size)
    }

    /// Serialize attribute message as v3 (adds character set encoding byte).
    pub fn serialize_v3(&self, length_size: u8) -> (buf: Vec<u8>)
        ensures
            buf@ == self.deep_view().bytes(3, length_size),
    {
        self.serialize_version(3, length_size)
    }

    fn serialize_version(&self, version: u8, length_size: u8) -> (buf: Vec<u8>)
        ensures
            buf@ == self.deep_view().bytes(version, length_size),
    {
        let mut name_bytes: Vec<u8> = Vec::new();
        put_slice(&mut name_bytes, self.name.as_str().as_bytes());
        name_bytes.push(0);  // null terminator
        assert(name_bytes@ =~= encode_utf8(self.name@) + seq![0u8]);
        let dt_bytes = self.datatype.serialize();
        let ds_bytes = self.dataspace.serialize(length_size);
        let mut buf: Vec<u8> = Vec::new();
        buf.push(version);
        buf.push(0);  // flags
        assert(buf@ =~= seq![version, 0u8]);
        put_size(&mut buf, &name_bytes);
        put_size(&mut buf, &dt_bytes);
        put_size(&mut buf, &ds_bytes);
        let ghost head = buf@;
        if version >= 3 {
            buf.push(0x00);  // character set encoding: ASCII
            assert(buf@ =~= head + seq![0u8]);
        } else {
            assert(buf@ =~= head + Seq::<u8>::empty());
        }
        put_slice(&mut buf, name_bytes.as_slice());
        put_slice(&mut buf, dt_bytes.as_slice());
        put_slice(&mut buf, ds_bytes.as_slice());
        put_slice(&mut buf, self.raw_data.as_slice());
        buf
    }
}

/// Appends the low two bytes of the length of a field.
fn put_size(buf: &mut Vec<u8>, field: &Vec<u8>)
    ensures
        final(buf)@ == old(buf)@ + crate::bytes::le_bytes(field@.len(), 2),
{
    crate::bytes::put_le(buf, field.len() as u64, 2);
}

// ---- Values ----

impl AttributeMessage {
    /// The numbers of the attribute value, for conversion to double precision.
    pub fn numbers_for_f64(&self) -> (r: Result<Vec<data_read::Number>, FormatError>)
        requires
            data_read::are_extendable(self.raw_data@, self.datatype.model()),
        ensures
            crate::error::outcome(r) == data_read::numbers(
                self.raw_data@,
                self.datatype.model(),
                "FloatingPoint or FixedPoint",
                data_read::unknown_precision(self.datatype.model(), false),
            ),
    {
        data_read::numbers_for_f64(self.raw_data.as_slice(), &self.datatype)
    }

    /// Read attribute value as i64 values.
    pub fn read_as_i64(&self) -> (r: Result<Vec<i64>, FormatError>)
        requires
            data_read::is_extendable(self.raw_data@, self.datatype.model()),
        ensures
            crate::error::outcome(r) == data_read::signed_values(
                self.raw_data@,
                self.datatype.model(),
                "FixedPoint (signed)",
            ),
    {
        data_read::read_as_i64(self.raw_data.as_slice(), &self.datatype)
    }

    /// Read attribute value as u64 values.
    pub fn read_as_u64(&self) -> (r: Result<Vec<u64>, FormatError>)
        ensures
            crate::error::outcome(r) == data_read::unsigned_values(
                self.raw_data@,
                self.datatype.model(),
            ),
    {
        data_read::read_as_u64(self.raw_data.as_slice(), &self.datatype)
    }

    /// Read attribute value as a single string (first element).
    pub fn read_as_string(&self) -> (r: Result<String, FormatError>)
        ensures
            crate::error::outcome(r) == match data_read::strings_of(
                self.raw_data@,
                self.datatype.model(),
            ) {
                Err(e) => Err(e),
                Ok(texts) => Ok(
                    if texts.len() > 0 {
                        texts[0]
                    } else {
                        Seq::empty()
                    },
                ),
            },
    {
        let strings = data_read::read_as_strings(self.raw_data.as_slice(), &self.datatype)?;
        if strings.len() > 0 {
            assert(strings.deep_view()[0] == strings@[0]@);
            Ok(strings[0].clone())
        } else {
            let none = String::new();
            assert(none@ =~= Seq::<char>::empty());
            Ok(none)
        }
    }

    /// Read attribute value as a vector of fixed-length strings.
    pub fn read_as_strings(&self) -> (r: Result<Vec<String>, FormatError>)
        ensures
            crate::error::outcome(r) == data_read::strings_of(
                self.raw_data@,
                self.datatype.model(),
            ),
    {
        data_read::read_as_strings(self.raw_data.as_slice(), &self.datatype)
    }

    /// Read variable-length string attribute values.
    ///
    /// Needs the full file data and offset/length sizes from the superblock
    /// because VL strings store their data in the global heap.
    pub fn read_vl_strings(&self, file_data: &[u8], offset_size: u8, length_size: u8) -> (r: Result<
        Vec<String>,
        FormatError,
    >)
        requires
            self.dataspace.space_type == DataspaceType::Simple ==> crate::dataspace::is_countable(
                self.dataspace.dimensions@,
            ),
        ensures
            crate::error::outcome(r) == vl_data::vl_strings(
                file_data@,
                self.raw_data@,
                self.dataspace.deep_view().elements() as int,
                offset_size,
                length_size,
            ),
    {
        let num_elements: u64 = self.dataspace.num_elements();
        vl_data::read_vl_strings(
            file_data,
            self.raw_data.as_slice(),
            num_elements,
            offset_size,
            length_size,
        )
    }
}

// ---- Attributes of an object ----

/// What is found of the attributes of an object.
pub type Attributes = Result<Seq<AttributeModel>, ErrorModel>;

/// The attributes that the first `n` messages hold.
pub open spec fn inline_attributes(ms: Seq<HeaderMessageModel>, n: int, ls: u8) -> Attributes
    decreases n,
{
    if n <= 0 {
        Ok(Seq::empty())
    } else {
        match inline_attributes(ms, n - 1, ls) {
            Err(e) => Err(e),
            Ok(done) => if ms[n - 1].msg_type != MessageType::Attribute {
                Ok(done)
            } else {
                match attribute_of(ms[n - 1].data, ls) {
                    Err(e) => Err(e),
                    Ok(attribute) => Ok(done.push(attribute)),
                }
            },
        }
    }
}

proof fn lemma_inline_error(ms: Seq<HeaderMessageModel>, k: int, n: int, ls: u8)
    requires
        0 <= k <= n,
        inline_attributes(ms, k, ls) is Err,
    ensures
        inline_attributes(ms, n, ls) == inline_attributes(ms, k, ls),
    decreases n - k,
{
    if k < n {
        lemma_inline_error(ms, k, n - 1, ls);
    }
}

fn put_attribute(list: &mut Vec<AttributeMessage>, attribute: AttributeMessage)
    ensures
        final(list).deep_view() == old(list).deep_view().push(attribute.deep_view()),
{
    let ghost added = attribute.deep_view();
    list.push(attribute);
    assert(list.deep_view() =~= old(list).deep_view().push(added));
}

/// Extract all attribute messages from an object header.
pub fn extract_attributes(header: &ObjectHeader, length_size: u8) -> (r: Result<
    Vec<AttributeMessage>,
    FormatError,
>)
    ensures
        ({
            let ms = header.deep_view().messages;
            crate::error::outcome(r) == inline_attributes(ms, ms.len() as int, length_size)
        }),
{
    let messages = &header.messages;
    let ghost ms = messages.deep_view();
    let mut attrs: Vec<AttributeMessage> = Vec::new();
    let mut k: usize = 0;
    assert(attrs.deep_view() =~= Seq::<AttributeModel>::empty());
    while k < messages.len()
        invariant
            k <= messages@.len(),
            ms == messages.deep_view(),
            ms == header.deep_view().messages,
            inline_attributes(ms, k as int, length_size) == Ok::<Seq<AttributeModel>, ErrorModel>(
                attrs.deep_view(),
            ),
        decreases messages@.len() - k,
    {
        assert(ms[k as int] == messages@[k as int].deep_view());
        if messages[k].msg_type == MessageType::Attribute {
            match AttributeMessage::parse(messages[k].data.as_slice(), length_size) {
                Ok(attribute) => put_attribute(&mut attrs, attribute),
                Err(e) => {
                    proof {
                        lemma_inline_error(ms, k + 1, ms.len() as int, length_size);
                    }
                    return Err(e);
                },
            }
        }
        k += 1;
    }
    Ok(attrs)
}

/// The position of the first attribute at or behind the `from`-th with the given name.
pub open spec fn attribute_named(attrs: Seq<AttributeModel>, name: Seq<char>, from: int) -> Option<
    AttributeModel,
>
    decreases attrs.len() - from,
{
    if from >= attrs.len() {
        None
    } else if attrs[from].name == name {
        Some(attrs[from])
    } else {
        attribute_named(attrs, name, from + 1)
    }
}

/// Find a specific attribute by name.
pub fn find_attribute<'a>(attrs: &'a [AttributeMessage], name: &str) -> (r: Option<
    &'a AttributeMessage,
>)
    ensures
        match r {
            Some(a) => attribute_named(attrs.deep_view(), name@, 0) == Some(a.deep_view()),
            None => attribute_named(attrs.deep_view(), name@, 0) is None,
        },
{
    let ghost all = attrs.deep_view();
    let mut k: usize = 0;
    while k < attrs.len()
        invariant
            k <= attrs@.len(),
            all == attrs.deep_view(),
            attribute_named(all, name@, 0) == attribute_named(all, name@, k as int),
        decreases attrs@.len() - k,
    {
        assert(all[k as int] == attrs@[k as int].deep_view());
        if same_text(attrs[k].name.as_str(), name) {
            return Some(&attrs[k]);
        }
        k += 1;
    }
    None
}

/// The attribute that a message holds, itself or through a reference.
pub open spec fn message_attribute(d: Seq<u8>, m: HeaderMessageModel, os: u8, ls: u8) -> Result<
    AttributeModel,
    ErrorModel,
> {
    if !crate::shared_message::shared(m.flags) {
        attribute_of(m.data, ls)
    } else {
        match crate::shared_message::shared_ref_of(m.data, os) {
            Err(e) => Err(e),
            Ok(reference) => match crate::shared_message::resolved(
                d,
                reference,
                MessageType::Attribute,
                os,
                ls,
                None,
            ) {
                Err(e) => Err(e),
                Ok(data) => attribute_of(data, ls),
            },
        }
    }
}

/// The attributes that the first `n` messages hold, themselves or through references.
pub open spec fn compact_attributes(
    d: Seq<u8>,
    ms: Seq<HeaderMessageModel>,
    n: int,
    os: u8,
    ls: u8,
) -> Attributes
    decreases n,
{
    if n <= 0 {
        Ok(Seq::empty())
    } else {
        match compact_attributes(d, ms, n - 1, os, ls) {
            Err(e) => Err(e),
            Ok(done) => if ms[n - 1].msg_type != MessageType::Attribute {
                Ok(done)
            } else {
                match message_attribute(d, ms[n - 1], os, ls) {
                    Err(e) => Err(e),
                    Ok(attribute) => Ok(done.push(attribute)),
                }
            },
        }
    }
}

proof fn lemma_compact_error(
    d: Seq<u8>,
    ms: Seq<HeaderMessageModel>,
    k: int,
    n: int,
    os: u8,
    ls: u8,
)
    requires
        0 <= k <= n,
        compact_attributes(d, ms, k, os, ls) is Err,
    ensures
        compact_attributes(d, ms, n, os, ls) == compact_attributes(d, ms, k, os, ls),
    decreases n - k,
{
    if k < n {
        lemma_compact_error(d, ms, k, n - 1, os, ls);
    }
}

/// `done` and the attributes whose heap IDs stand in the first `n` records of a B-tree.
pub open spec fn dense_attributes(
    d: Seq<u8>,
    heap: FractalHeapHeader,
    records: Seq<Seq<u8>>,
    n: int,
    os: u8,
    ls: u8,
    done: Seq<AttributeModel>,
) -> Attributes
    decreases n,
{
    if n <= 0 {
        Ok(done)
    } else {
        match dense_attributes(d, heap, records, n - 1, os, ls, done) {
            Err(e) => Err(e),
            Ok(before) => if records[n - 1].len() < heap.heap_id_length {
                Ok(before)
            } else {
                match heap.object(
                    d,
                    records[n - 1].subrange(0, heap.heap_id_length as int),
                    os,
                ) {
                    Err(e) => Err(e),
                    Ok(data) => match attribute_of(data, ls) {
                        Err(e) => Err(e),
                        Ok(attribute) => Ok(before.push(attribute)),
                    },
                }
            },
        }
    }
}

proof fn lemma_dense_error(
    d: Seq<u8>,
    heap: FractalHeapHeader,
    records: Seq<Seq<u8>>,
    k: int,
    n: int,
    os: u8,
    ls: u8,
    done: Seq<AttributeModel>,
)
    requires
        0 <= k <= n,
        dense_attributes(d, heap, records, k, os, ls, done) is Err,
    ensures
        dense_attributes(d, heap, records, n, os, ls, done) == dense_attributes(
            d,
            heap,
            records,
            k,
            os,
            ls,
            done,
        ),
    decreases n - k,
{
    if k < n {
        lemma_dense_error(d, heap, records, k, n - 1, os, ls, done);
    }
}

/// `done` and the attributes in dense storage.
pub open spec fn with_dense(
    d: Seq<u8>,
    heap_address: u64,
    index_address: Option<u64>,
    os: u8,
    ls: u8,
    done: Seq<AttributeModel>,
) -> Attributes {
    match crate::fractal_heap::header_at(d, (heap_address as usize) as int, os, ls) {
        Err(e) => Err(e),
        Ok(heap) => match index_address {
            None => Err(
                ErrorModel::Plain(FormatError::UnexpectedEof { expected: 1, available: 0 }),
            ),
            Some(a) => match crate::btree_v2::header_at(d, (a as usize) as int, os, ls) {
                Err(e) => Err(e),
                Ok(h) => match crate::btree_v2::all_records(d, h, os) {
                    Err(e) => Err(e),
                    Ok(records) => dense_attributes(
                        d,
                        heap,
                        records,
                        records.len() as int,
                        os,
                        ls,
                        done,
                    ),
                },
            },
        },
    }
}

/// What the first Attribute Info message says, if there is one.
pub open spec fn attribute_info_in(ms: Seq<HeaderMessageModel>, os: u8) -> Result<
    Option<AttributeInfoMessage>,
    ErrorModel,
> {
    match crate::group_v1::message_of(ms, MessageType::AttributeInfo, 0) {
        None => Ok(None),
        Some(data) => match crate::attribute_info::info_of(data, os) {
            Err(e) => Err(e),
            Ok(info) => Ok(Some(info)),
        },
    }
}

/// The attributes of an object: those in its header, then those in dense storage.
pub open spec fn all_attributes(d: Seq<u8>, ms: Seq<HeaderMessageModel>, os: u8, ls: u8) -> Attributes {
    match compact_attributes(d, ms, ms.len() as int, os, ls) {
        Err(e) => Err(e),
        Ok(done) => match attribute_info_in(ms, os) {
            Err(e) => Err(e),
            Ok(None) => Ok(done),
            Ok(Some(info)) => match info.fractal_heap_address {
                None => Ok(done),
                Some(a) => with_dense(d, a, info.btree_name_index_address, os, ls, done),
            },
        },
    }
}

fn read_message_attribute(
    file_data: &[u8],
    m: &HeaderMessage,
    offset_size: u8,
    length_size: u8,
) -> (r: Result<AttributeMessage, FormatError>)
    ensures
        crate::error::outcome(r) == message_attribute(
            file_data@,
            m.deep_view(),
            offset_size,
            length_size,
        ),
{
    if is_shared(m.flags) {
        // Shared attribute: resolve the reference to get actual attribute data
        let shared_ref = parse_shared_ref(m.data.as_slice(), offset_size)?;
        let data = resolve_shared_message(
            file_data,
            &shared_ref,
            MessageType::Attribute,
            offset_size,
            length_size,
        )?;
        assert(data.deep_view() =~= data@);
        AttributeMessage::parse(data.as_slice(), length_size)
    } else {
        AttributeMessage::parse(m.data.as_slice(), length_size)
    }
}

/// Collect compact attributes (inline in OH).
fn collect_compact(file_data: &[u8], header: &ObjectHeader, offset_size: u8, length_size: u8) -> (r:
    Result<Vec<AttributeMessage>, FormatError>)
    ensures
        ({
            let ms = header.deep_view().messages;
            crate::error::outcome(r) == compact_attributes(
                file_data@,
                ms,
                ms.len() as int,
                offset_size,
                length_size,
            )
        }),
{
    let messages = &header.messages;
    let ghost ms = messages.deep_view();
    let mut attrs: Vec<AttributeMessage> = Vec::new();
    let mut k: usize = 0;
    assert(attrs.deep_view() =~= Seq::<AttributeModel>::empty());
    while k < messages.len()
        invariant
            k <= messages@.len(),
            ms == messages.deep_view(),
            ms == header.deep_view().messages,
            compact_attributes(file_data@, ms, k as int, offset_size, length_size) == Ok::<
                Seq<AttributeModel>,
                ErrorModel,
            >(attrs.deep_view()),
        decreases messages@.len() - k,
    {
        assert(ms[k as int] == messages@[k as int].deep_view());
        if messages[k].msg_type == MessageType::Attribute {
            match read_message_attribute(file_data, &messages[k], offset_size, length_size) {
                Ok(attribute) => put_attribute(&mut attrs, attribute),
                Err(e) => {
                    proof {
                        lemma_compact_error(
                            file_data@,
                            ms,
                            k + 1,
                            ms.len() as int,
                            offset_size,
                            length_size,
                        );
                    }
                    return Err(e);
                },
            }
        }
        k += 1;
    }
    Ok(attrs)
}

/// Appends the attributes whose heap IDs stand in the records.
fn put_records(
    file_data: &[u8],
    fh: &FractalHeapHeader,
    records: &Vec<BTreeV2Record>,
    offset_size: u8,
    length_size: u8,
    attrs: &mut Vec<AttributeMessage>,
) -> (r: Result<(), FormatError>)
    ensures
        ({
            let found = dense_attributes(
                file_data@,
                *fh,
                records.deep_view(),
                records@.len() as int,
                offset_size,
                length_size,
                old(attrs).deep_view(),
            );
            match r {
                Ok(_) => found == Ok::<Seq<AttributeModel>, ErrorModel>(final(attrs).deep_view()),
                Err(e) => found == Err::<Seq<AttributeModel>, ErrorModel>(e.deep_view()),
            }
        }),
{
    let ghost all = records.deep_view();
    let ghost start = attrs.deep_view();
    let ghost n = all.len() as int;
    // Both type 8 and type 9 records start with heap_id:
    //   Type 8: heap_id(8) + msg_flags(1) + creation_order(4) + hash(4)
    //   Type 9: heap_id(8) + msg_flags(1) + creation_order(4)
    let id_end: usize = fh.heap_id_length as usize;
    let mut k: usize = 0;
    while k < records.len()
        invariant
            k <= records@.len(),
            all == records.deep_view(),
            n == all.len(),
            start == old(attrs).deep_view(),
            id_end == fh.heap_id_length,
            dense_attributes(file_data@, *fh, all, k as int, offset_size, length_size, start)
                == Ok::<Seq<AttributeModel>, ErrorModel>(attrs.deep_view()),
        decreases records@.len() - k,
    {
        let data = &records[k].data;
        assert(all[k as int] == data@);
        if data.len() >= id_end {
            let id_bytes = slice_subrange(data.as_slice(), 0, id_end);
            // Read attribute message from fractal heap
            let attr_data = match fh.read_managed_object(file_data, id_bytes, offset_size) {
                Ok(object) => object,
                Err(e) => {
                    proof {
                        lemma_dense_error(
                            file_data@,
                            *fh,
                            all,
                            k + 1,
                            n,
                            offset_size,
                            length_size,
                            start,
                        );
                    }
                    return Err(e);
                },
            };
            assert(attr_data.deep_view() =~= attr_data@);
            // The data in the heap is a complete attribute message
            match AttributeMessage::parse(attr_data.as_slice(), length_size) {
                Ok(attribute) => put_attribute(attrs, attribute),
                Err(e) => {
                    proof {
                        lemma_dense_error(
                            file_data@,
                            *fh,
                            all,
                            k + 1,
                            n,
                            offset_size,
                            length_size,
                            start,
                        );
                    }
                    return Err(e);
                },
            }
        }
        k += 1;
    }
    Ok(())
}

/// Appends the attributes in dense storage (fractal heap + B-tree v2).
fn put_dense_attributes(
    file_data: &[u8],
    attr_info: &AttributeInfoMessage,
    fh_addr: u64,
    offset_size: u8,
    length_size: u8,
    attrs: &mut Vec<AttributeMessage>,
) -> (r: Result<(), FormatError>)
    ensures
        ({
            let found = with_dense(
                file_data@,
                fh_addr,
                attr_info.btree_name_index_address,
                offset_size,
                length_size,
                old(attrs).deep_view(),
            );
            match r {
                Ok(_) => found == Ok::<Seq<AttributeModel>, ErrorModel>(final(attrs).deep_view()),
                Err(e) => found == Err::<Seq<AttributeModel>, ErrorModel>(e.deep_view()),
            }
        }),
{
    // Parse fractal heap
    let fh = FractalHeapHeader::parse(file_data, fh_addr as usize, offset_size, length_size)?;
    // Parse B-tree v2 for name index (type 8)
    let btree_addr = match attr_info.btree_name_index_address {
        Some(address) => address,
        None => return Err(FormatError::UnexpectedEof { expected: 1, available: 0 }),
    };
    let btree_hdr = BTreeV2Header::parse(
        file_data,
        btree_addr as usize,
        offset_size,
        length_size,
    )?;
    let records = collect_btree_v2_records(file_data, &btree_hdr, offset_size, length_size)?;
    put_records(file_data, &fh, &records, offset_size, length_size, attrs)
}

/// Find and parse the Attribute Info message from an object header.
fn find_attribute_info(header: &ObjectHeader, offset_size: u8) -> (r: Result<
    Option<AttributeInfoMessage>,
    FormatError,
>)
    ensures
        match r {
            Ok(info) => attribute_info_in(header.deep_view().messages, offset_size) == Ok::<
                Option<AttributeInfoMessage>,
                ErrorModel,
            >(info),
            Err(e) => attribute_info_in(header.deep_view().messages, offset_size) == Err::<
                Option<AttributeInfoMessage>,
                ErrorModel,
            >(e.deep_view()),
        },
{
    match find_message(&header.messages, MessageType::AttributeInfo) {
        Some(m) => {
            let info = AttributeInfoMessage::parse(m.data.as_slice(), offset_size)?;
            Ok(Some(info))
        },
        None => Ok(None),
    }
}

/// Extract all attributes from an object header, supporting both compact and dense storage.
///
/// This function handles:
/// - Compact attributes: inline Attribute messages (0x000C) in the object header
/// - Dense attributes: AttributeInfo message (0x0015) pointing to fractal heap + B-tree v2
/// - Shared messages: resolves the reference that a shared attribute message holds
///
/// Use this instead of `extract_attributes` when reading files that may use dense storage
/// (e.g., objects with many attributes, typically >8).
pub fn extract_attributes_full(
    file_data: &[u8],
    header: &ObjectHeader,
    offset_size: u8,
    length_size: u8,
) -> (r: Result<Vec<AttributeMessage>, FormatError>)
    ensures
        crate::error::outcome(r) == all_attributes(
            file_data@,
            header.deep_view().messages,
            offset_size,
            length_size,
        ),
{
    let mut attrs = collect_compact(file_data, header, offset_size, length_size)?;
    // Check for dense attributes via AttributeInfo message
    let attr_info = find_attribute_info(header, offset_size)?;
    if let Some(info) = attr_info {
        if let Some(fh_addr) = info.fractal_heap_address {
            put_dense_attributes(
                file_data,
                &info,
                fh_addr,
                offset_size,
                length_size,
                &mut attrs,
            )?;
        }
    }
    Ok(attrs)
}

// ---- Laws ----

/// An attribute whose datatype and data space can be read back from their own bytes is read back
/// from its message, in either version, whatever follows a value that is not empty. Its name has no
/// zero byte, the sizes of its parts fit in their fields, and its value has the size that datatype
/// and data space call for.
pub proof fn law_attribute_of_readable_parts(
    m: AttributeModel,
    version: u8,
    ls: u8,
    rest: Seq<u8>,
)
    requires
        version == 2 || version == 3,
        crate::datatype::is_name(m.name),
        crate::datatype::parsed(crate::datatype::encoded(m.datatype)) matches Ok((t, _)) && t
            == m.datatype,
        crate::dataspace::dataspace_of(m.dataspace.bytes(ls), ls) == Ok::<
            DataspaceModel,
            ErrorModel,
        >(m.dataspace),
        encode_utf8(m.name).len() < 0xFFFF,
        crate::datatype::encoded(m.datatype).len() <= 0xFFFF,
        m.dataspace.bytes(ls).len() <= 0xFFFF,
        m.raw_data.len() == m.dataspace.elements() * m.datatype.size(),
        m.raw_data.len() > 0 || rest.len() == 0,
    ensures
        attribute_of(m.bytes(version, ls) + rest, ls) == Ok::<AttributeModel, ErrorModel>(m),
{
    lemma_name_field(m.name);
    lemma_fields_round_trip(
        m,
        version,
        ls,
        encode_utf8(m.name) + seq![0u8],
        crate::datatype::encoded(m.datatype),
        m.dataspace.bytes(ls),
        rest,
    );
}

/// A serialized attribute, in either version, is read back, whatever follows a value that is not
/// empty.
pub proof fn law_attribute_round_trip(m: AttributeModel, version: u8, ls: u8, rest: Seq<u8>)
    requires
        m.representable(ls),
        version == 2 || version == 3,
        m.raw_data.len() > 0 || rest.len() == 0,
    ensures
        attribute_of(m.bytes(version, ls) + rest, ls) == Ok::<AttributeModel, ErrorModel>(m),
{
    lemma_datatype_field(m.datatype);
    lemma_space_field(m.dataspace, ls);
    law_attribute_of_readable_parts(m, version, ls, rest);
}

proof fn lemma_datatype_field(m: DatatypeModel)
    requires
        crate::datatype::representable(m),
    ensures
        crate::datatype::parsed(crate::datatype::encoded(m)) is Ok,
        crate::datatype::parsed(crate::datatype::encoded(m))->Ok_0.0 == m,
{
    let d = crate::datatype::encoded(m);
    crate::datatype::law_datatype_round_trip(m, Seq::empty());
    assert(d + Seq::<u8>::empty() =~= d);
}

proof fn lemma_space_field(m: DataspaceModel, ls: u8)
    requires
        m.representable(ls),
    ensures
        crate::dataspace::dataspace_of(m.bytes(ls), ls) == Ok::<DataspaceModel, ErrorModel>(m),
{
    let d = m.bytes(ls);
    crate::dataspace::law_dataspace_round_trip(m, ls, Seq::empty());
    assert(d + Seq::<u8>::empty() =~= d);
}

/// A message whose fields can be read back can be read back.
proof fn lemma_fields_round_trip(
    m: AttributeModel,
    version: u8,
    ls: u8,
    name: Seq<u8>,
    datatype: Seq<u8>,
    space: Seq<u8>,
    rest: Seq<u8>,
)
    requires
        version == 2 || version == 3,
        m.raw_data.len() > 0 || rest.len() == 0,
        m.raw_data.len() == m.dataspace.elements() * m.datatype.size(),
        name.len() <= 0xFFFF,
        datatype.len() <= 0xFFFF,
        space.len() <= 0xFFFF,
        name_of(name) == m.name,
        crate::datatype::parsed(datatype) is Ok,
        crate::datatype::parsed(datatype)->Ok_0.0 == m.datatype,
        crate::dataspace::dataspace_of(space, ls) == Ok::<DataspaceModel, ErrorModel>(m.dataspace),
    ensures
        attribute_of(message(version, name, datatype, space, m.raw_data) + rest, ls) == Ok::<
            AttributeModel,
            ErrorModel,
        >(m),
{
    let d = message(version, name, datatype, space, m.raw_data) + rest;
    lemma_fields(version, name, datatype, space, m.raw_data, rest);
    let start: int = if version >= 3 {
        9
    } else {
        8
    };
    let r = start + name.len() + datatype.len() + space.len();
    lemma_value(d, r, m.raw_data, rest, m.dataspace, m.datatype.size());
}

/// Where the fields of a message stand.
proof fn lemma_fields(
    version: u8,
    name: Seq<u8>,
    datatype: Seq<u8>,
    space: Seq<u8>,
    raw: Seq<u8>,
    rest: Seq<u8>,
)
    requires
        name.len() <= 0xFFFF,
        datatype.len() <= 0xFFFF,
        space.len() <= 0xFFFF,
    ensures
        ({
            let charset = if version >= 3 {
                seq![0u8]
            } else {
                Seq::empty()
            };
            let d = message(version, name, datatype, space, raw) + rest;
            let start = 8 + charset.len() as int;
            let p = start + name.len();
            let q = p + datatype.len();
            let r = q + space.len();
            &&& r <= d.len()
            &&& d[0] == version
            &&& crate::bytes::u16_at(d, 2) == name.len()
            &&& crate::bytes::u16_at(d, 4) == datatype.len()
            &&& crate::bytes::u16_at(d, 6) == space.len()
            &&& d.subrange(start, p) == name
            &&& d.subrange(p, q) == datatype
            &&& d.subrange(q, r) == space
            &&& d.subrange(r, d.len() as int) == raw + rest
        }),
{
    let charset = if version >= 3 {
        seq![0u8]
    } else {
        Seq::empty()
    };
    let a = seq![version, 0u8];
    let f1 = crate::bytes::le_bytes(name.len(), 2);
    let f2 = crate::bytes::le_bytes(datatype.len(), 2);
    let f3 = crate::bytes::le_bytes(space.len(), 2);
    let d = a + f1 + f2 + f3 + charset + name + datatype + space + raw + rest;
    let t5 = raw + rest;
    lemma_regroup(a, f1, f2, f3, charset, name, datatype, space, raw, rest);
    assert(d.subrange(0, d.len() as int) =~= d);
    crate::bytes::lemma_peel(d, 0, a, f1 + (f2 + (f3 + (charset + (name + (datatype + (space
        + t5)))))));
    assert(d.subrange(0, 2)[0] == a[0]);
    crate::filter_pipeline::lemma_u16_field(
        d,
        2,
        name.len(),
        f2 + (f3 + (charset + (name + (datatype + (space + t5))))),
    );
    crate::filter_pipeline::lemma_u16_field(
        d,
        4,
        datatype.len(),
        f3 + (charset + (name + (datatype + (space + t5)))),
    );
    crate::filter_pipeline::lemma_u16_field(
        d,
        6,
        space.len(),
        charset + (name + (datatype + (space + t5))),
    );
    crate::bytes::lemma_peel(d, 8, charset, name + (datatype + (space + t5)));
    let start = 8 + charset.len();
    crate::bytes::lemma_peel(d, start as int, name, datatype + (space + t5));
    let p = start + name.len();
    crate::bytes::lemma_peel(d, p as int, datatype, space + t5);
    let q = p + datatype.len();
    crate::bytes::lemma_peel(d, q as int, space, t5);
}

proof fn lemma_regroup(
    a: Seq<u8>,
    b: Seq<u8>,
    c: Seq<u8>,
    d: Seq<u8>,
    e: Seq<u8>,
    f: Seq<u8>,
    g: Seq<u8>,
    h: Seq<u8>,
    i: Seq<u8>,
    j: Seq<u8>,
)
    ensures
        a + b + c + d + e + f + g + h + i + j == a + (b + (c + (d + (e + (f + (g + (h + (i
            + j)))))))),
{
    let x = a + b + c + d;
    assert(x + e + f + g + h + i + j =~= x + (e + (f + (g + (h + (i + j))))));
    let y = e + (f + (g + (h + (i + j))));
    assert(x + y =~= a + (b + (c + (d + y))));
}

/// The name in a field that ends with a zero byte.
proof fn lemma_name_field(name: Seq<char>)
    requires
        crate::datatype::is_name(name),
    ensures
        name_of(encode_utf8(name) + seq![0u8]) == name,
{
    let text = encode_utf8(name);
    let b = text + seq![0u8];
    crate::text::lemma_no_zero_byte(name);
    assert forall|k: int| 0 <= k < text.len() implies b[k] != 0 by {
        assert(b[k] == text[k]);
    }
    assert(b[text.len() as int] == 0);
    crate::text::lemma_zero_from_is(b, 0, text.len() as int);
    assert(b.subrange(0, text.len() as int) =~= text);
    crate::text::lemma_text_round_trip(name);
}

/// The value of the size that is called for.
proof fn lemma_value(
    d: Seq<u8>,
    p: int,
    raw: Seq<u8>,
    rest: Seq<u8>,
    space: DataspaceModel,
    size: u32,
)
    requires
        0 <= p <= d.len(),
        d.subrange(p, d.len() as int) == raw + rest,
        raw.len() == space.elements() * size,
        raw.len() > 0 || rest.len() == 0,
    ensures
        value_at(d, p, space, size) == raw,
{
    crate::bytes::lemma_peel(d, p, raw, rest);
    if p >= d.len() {
        assert(raw =~= Seq::<u8>::empty());
    } else if raw.len() == d.len() - p {
        assert(d.subrange(p, d.len() as int) =~= raw);
    }
}

} // verus!

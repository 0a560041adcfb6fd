//! HDF5 Filter Pipeline message parsing (message type 0x000B).

use vstd::prelude::*;
use vstd::slice::slice_subrange;
use vstd::string::*;
use vstd::utf8::*;
use crate::bytes::{byte_len, order_u16, order_u32, put_fill, put_le, put_slice, put_u16, put_u32};
use crate::error::{ErrorModel, FormatError};
use crate::text::{decode_strict, find_zero};
use crate::utils::{ensure_len, pad8};

verus! {

broadcast use vstd::std_specs::control_flow::group_control_flow_axioms;

/// Well-known filter IDs.
pub const FILTER_DEFLATE: u16 = 1;

pub const FILTER_SHUFFLE: u16 = 2;

pub const FILTER_FLETCHER32: u16 = 3;

pub const FILTER_SZIP: u16 = 4;

pub const FILTER_NBIT: u16 = 5;

pub const FILTER_SCALEOFFSET: u16 = 6;

/// Description of a single filter in a pipeline.
#[derive(Debug, PartialEq)]
pub struct FilterDescription {
    /// Filter identification value.
    pub filter_id: u16,
    /// Optional filter name (required for filter_id >= 256 in v1).
    pub name: Option<String>,
    /// Filter flags (bit 0 = optional).
    pub flags: u16,
    /// Client data values passed to the filter.
    pub client_data: Vec<u32>,
}

/// A filter pipeline consisting of one or more filters.
#[derive(Debug, PartialEq)]
pub struct FilterPipeline {
    /// Pipeline version (1 or 2).
    pub version: u8,
    /// Ordered list of filters.
    pub filters: Vec<FilterDescription>,
}

/// The content of a [`FilterDescription`].
pub struct FilterModel {
    pub filter_id: u16,
    pub name: Option<Seq<char>>,
    pub flags: u16,
    pub client_data: Seq<u32>,
}

/// The content of a [`FilterPipeline`].
pub struct PipelineModel {
    pub version: u8,
    pub filters: Seq<FilterModel>,
}

impl DeepView for FilterDescription {
    type V = FilterModel;

    open spec fn deep_view(&self) -> FilterModel {
        FilterModel {
            filter_id: self.filter_id,
            name: match self.name {
                Some(name) => Some(name@),
                None => None,
            },
            flags: self.flags,
            client_data: self.client_data@,
        }
    }
}

impl DeepView for FilterPipeline {
    type V = PipelineModel;

    open spec fn deep_view(&self) -> PipelineModel {
        PipelineModel { version: self.version, filters: self.filters.deep_view() }
    }
}

impl Clone for FilterDescription {
    fn clone(&self) -> (r: Self)
        ensures
            r.deep_view() == self.deep_view(),
    {
        let name = match &self.name {
            Some(name) => Some(name.clone()),
            None => None,
        };
        let client_data = self.client_data.clone();
        assert(client_data@ =~= self.client_data@);
        FilterDescription { filter_id: self.filter_id, name, flags: self.flags, client_data }
    }
}

impl Clone for FilterPipeline {
    fn clone(&self) -> (r: Self)
        ensures
            r.deep_view() == self.deep_view(),
    {
        let mut filters: Vec<FilterDescription> = Vec::new();
        let mut k: usize = 0;
        while k < self.filters.len()
            invariant
                k <= self.filters@.len(),
                filters@.len() == k,
                forall|i: int| 0 <= i < k ==> #[trigger] filters@[i].deep_view() == self.filters@[i].deep_view(),
            decreases self.filters@.len() - k,
        {
            filters.push(self.filters[k].clone());
            k += 1;
        }
        assert(filters.deep_view() =~= self.filters.deep_view());
        FilterPipeline { version: self.version, filters }
    }
}

// ---- Parsing ----

/// The name in `bytes`: the text in front of the first zero byte; empty if it is ill-formed.
pub open spec fn name_of(bytes: Seq<u8>) -> Seq<char> {
    let text = bytes.subrange(0, crate::text::zero_from(bytes, 0));
    if valid_utf8(text) {
        decode_utf8(text)
    } else {
        Seq::empty()
    }
}

/// The `n` values of client data at `pos`.
pub open spec fn client_data_at(d: Seq<u8>, pos: int, n: int) -> Seq<u32> {
    Seq::new(n as nat, |i: int| crate::bytes::u32_at(d, pos + 4 * i))
}

/// The optional name of `n` bytes at `pos`.
pub open spec fn name_at(d: Seq<u8>, pos: int, n: int) -> Option<Seq<char>> {
    if n > 0 {
        Some(name_of(d.subrange(pos, pos + n)))
    } else {
        None
    }
}

/// The filter of version 1 at `pos`, and the position behind it.
pub open spec fn filter_v1_at(d: Seq<u8>, pos: int) -> Result<(FilterModel, int), ErrorModel> {
    if !crate::utils::fits(d, pos, 8) {
        Err(crate::utils::eof(d, pos, 8))
    } else {
        let name_length = crate::bytes::u16_at(d, pos + 2) as int;
        let n = crate::bytes::u16_at(d, pos + 6) as int;
        let p = pos + 8 + crate::utils::padded8(name_length);
        if !crate::utils::fits(d, pos + 8, name_length) {
            Err(crate::utils::eof(d, pos + 8, name_length))
        } else if !crate::utils::fits(d, p, 4 * n) {
            Err(crate::utils::eof(d, p, 4 * n))
        } else {
            Ok(
                (
                    FilterModel {
                        filter_id: crate::bytes::u16_at(d, pos),
                        name: name_at(d, pos + 8, name_length),
                        flags: crate::bytes::u16_at(d, pos + 4),
                        client_data: client_data_at(d, p, n),
                    },
                    p + 4 * (n + n % 2),
                ),
            )
        }
    }
}

/// The filter of version 2 at `pos`, and the position behind it.
pub open spec fn filter_v2_at(d: Seq<u8>, pos: int) -> Result<(FilterModel, int), ErrorModel> {
    if !crate::utils::fits(d, pos, 2) {
        Err(crate::utils::eof(d, pos, 2))
    } else {
        let filter_id = crate::bytes::u16_at(d, pos);
        let q = if filter_id >= 256 {
            pos + 4
        } else {
            pos + 2
        };
        if !crate::utils::fits(d, pos + 2, q - (pos + 2)) {
            Err(crate::utils::eof(d, pos + 2, q - (pos + 2)))
        } else if !crate::utils::fits(d, q, 4) {
            Err(crate::utils::eof(d, q, 4))
        } else {
            let name_length = if filter_id >= 256 {
                crate::bytes::u16_at(d, pos + 2) as int
            } else {
                0
            };
            let n = crate::bytes::u16_at(d, q + 2) as int;
            let p = q + 4 + name_length;
            if !crate::utils::fits(d, q + 4, name_length) {
                Err(crate::utils::eof(d, q + 4, name_length))
            } else if !crate::utils::fits(d, p, 4 * n) {
                Err(crate::utils::eof(d, p, 4 * n))
            } else {
                Ok(
                    (
                        FilterModel {
                            filter_id,
                            name: name_at(d, q + 4, name_length),
                            flags: crate::bytes::u16_at(d, q),
                            client_data: client_data_at(d, p, n),
                        },
                        p + 4 * n,
                    ),
                )
            }
        }
    }
}

/// The filter of the given version at `pos`, and the position behind it.
pub open spec fn filter_at(d: Seq<u8>, pos: int, version: u8) -> Result<
    (FilterModel, int),
    ErrorModel,
> {
    if version == 1 {
        filter_v1_at(d, pos)
    } else {
        filter_v2_at(d, pos)
    }
}

/// `done` and the next `count` filters from `pos` on.
pub open spec fn filters_at(
    d: Seq<u8>,
    pos: int,
    count: nat,
    version: u8,
    done: Seq<FilterModel>,
) -> Result<Seq<FilterModel>, ErrorModel>
    decreases count,
{
    if count == 0 {
        Ok(done)
    } else {
        match filter_at(d, pos, version) {
            Err(e) => Err(e),
            Ok((f, next)) => filters_at(d, next, (count - 1) as nat, version, done.push(f)),
        }
    }
}

/// The pipeline that the message `d` describes.
pub open spec fn pipeline_of(d: Seq<u8>) -> Result<PipelineModel, ErrorModel> {
    if !crate::utils::fits(d, 0, 2) {
        Err(crate::utils::eof(d, 0, 2))
    } else if d[0] != 1 && d[0] != 2 {
        Err(ErrorModel::Plain(FormatError::InvalidFilterPipelineVersion(d[0])))
    } else if d[0] == 1 && !crate::utils::fits(d, 0, 8) {
        Err(crate::utils::eof(d, 0, 8))
    } else {
        let start: int = if d[0] == 1 {
            8
        } else {
            2
        };
        match filters_at(d, start, d[1] as nat, d[0], Seq::empty()) {
            Err(e) => Err(e),
            Ok(filters) => Ok(PipelineModel { version: d[0], filters }),
        }
    }
}

// ---- Serializing ----

/// The bytes of `values` from the `from`-th on.
pub open spec fn values_bytes(values: Seq<u32>, from: int) -> Seq<u8>
    decreases values.len() - from,
{
    if from >= values.len() {
        Seq::empty()
    } else {
        crate::bytes::le_bytes(values[from] as nat, 4) + values_bytes(values, from + 1)
    }
}

/// `n` zero bytes.
pub open spec fn zeros(n: int) -> Seq<u8> {
    Seq::new(n as nat, |i: int| 0u8)
}

impl FilterModel {
    /// The name with its terminator; `absent` where there is none.
    pub open spec fn name_bytes(self, absent: Seq<u8>) -> Seq<u8> {
        match self.name {
            Some(name) => encode_utf8(name).push(0),
            None => absent,
        }
    }

    /// The bytes of the filter in version 1.
    pub open spec fn bytes_v1(self) -> Seq<u8> {
        let nb = self.name_bytes(Seq::empty());
        let n = self.client_data.len() as int;
        crate::bytes::le_bytes(self.filter_id as nat, 2) + crate::bytes::le_bytes(nb.len(), 2)
            + crate::bytes::le_bytes(self.flags as nat, 2) + crate::bytes::le_bytes(n as nat, 2)
            + nb + zeros(crate::utils::padded8(nb.len() as int) - nb.len()) + values_bytes(
            self.client_data,
            0,
        ) + zeros(4 * (n % 2))
    }

    /// The bytes of the filter in version 2.
    pub open spec fn bytes_v2(self) -> Seq<u8> {
        let nb = self.name_bytes(seq![0u8]);
        let n = self.client_data.len();
        if self.filter_id >= 256 {
            crate::bytes::le_bytes(self.filter_id as nat, 2) + crate::bytes::le_bytes(nb.len(), 2)
                + crate::bytes::le_bytes(self.flags as nat, 2) + crate::bytes::le_bytes(n, 2) + nb
                + values_bytes(self.client_data, 0)
        } else {
            crate::bytes::le_bytes(self.filter_id as nat, 2) + crate::bytes::le_bytes(
                self.flags as nat,
                2,
            ) + crate::bytes::le_bytes(n, 2) + values_bytes(self.client_data, 0)
        }
    }

    /// The bytes of the filter in the given version.
    pub open spec fn bytes(self, version: u8) -> Seq<u8> {
        if version == 1 {
            self.bytes_v1()
        } else {
            self.bytes_v2()
        }
    }

    /// Whether a message of the given version has room for the filter.
    pub open spec fn representable(self, version: u8) -> bool {
        &&& self.client_data.len() <= 0xFFFF
        &&& version == 2 ==> (self.filter_id >= 256 <==> self.name is Some)
        &&& self.name matches Some(name) ==> {
            &&& forall|i: int| 0 <= i < name.len() ==> name[i] != '\0'
            &&& encode_utf8(name).len() < 0xFFFF
        }
    }
}

/// The bytes of the filters from the `from`-th on.
pub open spec fn filters_bytes(filters: Seq<FilterModel>, from: int, version: u8) -> Seq<u8>
    decreases filters.len() - from,
{
    if from >= filters.len() {
        Seq::empty()
    } else {
        filters[from].bytes(version) + filters_bytes(filters, from + 1, version)
    }
}

impl PipelineModel {
    /// The bytes of the pipeline message.
    pub open spec fn bytes(self) -> Seq<u8> {
        let count = (self.filters.len() % 256) as u8;
        if self.version == 1 {
            seq![1u8, count, 0, 0, 0, 0, 0, 0] + filters_bytes(self.filters, 0, 1)
        } else if self.version == 2 {
            seq![2u8, count] + filters_bytes(self.filters, 0, 2)
        } else {
            seq![self.version, 0]
        }
    }

    /// Whether a message has room for the pipeline.
    pub open spec fn representable(self) -> bool {
        &&& self.version == 1 || self.version == 2
        &&& self.filters.len() <= 255
        &&& forall|i: int|
            0 <= i < self.filters.len() ==> #[trigger] self.filters[i].representable(self.version)
    }
}

fn read_name(bytes: &[u8]) -> (name: String)
    ensures
        name@ == name_of(bytes@),
{
    let end: usize = find_zero(bytes, 0);
    match decode_strict(slice_subrange(bytes, 0, end)) {
        Some(name) => name,
        None => {
            let name = String::new();
            assert(name@ =~= Seq::<char>::empty());
            name
        },
    }
}

fn read_client_data(data: &[u8], pos: usize, n: usize) -> (values: Vec<u32>)
    requires
        pos + 4 * n <= data@.len(),
        data@.len() <= isize::MAX,
    ensures
        values@ == client_data_at(data@, pos as int, n as int),
{
    let mut values: Vec<u32> = Vec::with_capacity(n);
    let mut k: usize = 0;
    while k < n
        invariant
            k <= n,
            pos + 4 * n <= data@.len(),
            data@.len() <= isize::MAX,
            values@ == client_data_at(data@, pos as int, k as int),
        decreases n - k,
    {
        let p: usize = pos + 4 * k;
        values.push(order_u32(slice_subrange(data, p, p + 4)));
        k += 1;
        assert(values@ =~= client_data_at(data@, pos as int, k as int));
    }
    assert(values@ =~= client_data_at(data@, pos as int, n as int));
    values
}

fn write_client_data(buf: &mut Vec<u8>, values: &Vec<u32>)
    ensures
        final(buf)@ == old(buf)@ + values_bytes(values@, 0),
{
    let mut k: usize = 0;
    while k < values.len()
        invariant
            k <= values@.len(),
            buf@ + values_bytes(values@, k as int) =~= old(buf)@ + values_bytes(values@, 0),
        decreases values@.len() - k,
    {
        let ghost before = buf@;
        put_u32(buf, values[k]);
        proof {
            let a = crate::bytes::le_bytes(values@[k as int] as nat, 4);
            let b = values_bytes(values@, k + 1);
            assert(before + a + b =~= before + (a + b));
        }
        k += 1;
    }
    assert(buf@ + values_bytes(values@, k as int) =~= buf@);
}

fn name_to_bytes(name: &String) -> (nb: Vec<u8>)
    ensures
        nb@ == encode_utf8(name@).push(0),
{
    let mut nb: Vec<u8> = Vec::new();
    put_slice(&mut nb, name.as_str().as_bytes());
    assert(nb@ =~= encode_utf8(name@));
    nb.push(0);  // null terminate
    nb
}

impl FilterPipeline {
    /// Parse a filter pipeline message from raw message bytes.
    pub fn parse(data: &[u8]) -> (r: Result<Self, FormatError>)
        ensures
            crate::error::outcome(r) == pipeline_of(data@),
    {
        ensure_len(data, 0, 2)?;
        let version = data[0];
        let number_of_filters = data[1];
        match version {
            1 => {
                // version(1) + nfilters(1) + reserved(6) = 8 bytes header
                ensure_len(data, 0, 8)?;
                FilterPipeline::parse_filters(data, 8, number_of_filters, 1)
            },
            // version(1) + nfilters(1) = 2 bytes header (no reserved in v2)
            2 => FilterPipeline::parse_filters(data, 2, number_of_filters, 2),
            _ => Err(FormatError::InvalidFilterPipelineVersion(version)),
        }
    }

    fn parse_filters(data: &[u8], start: usize, number_of_filters: u8, version: u8) -> (r: Result<
        Self,
        FormatError,
    >)
        requires
            start <= data@.len(),
        ensures
            crate::error::outcome(r) == match filters_at(
                data@,
                start as int,
                number_of_filters as nat,
                version,
                Seq::empty(),
            ) {
                Err(e) => Err(e),
                Ok(filters) => Ok(PipelineModel { version, filters }),
            },
    {
        let len: usize = byte_len(data);
        let mut pos: usize = start;
        let mut filters: Vec<FilterDescription> = Vec::new();
        let mut left: u8 = number_of_filters;
        assert(filters.deep_view() =~= Seq::<FilterModel>::empty());
        let ghost goal = filters_at(
            data@,
            start as int,
            number_of_filters as nat,
            version,
            Seq::empty(),
        );
        while left > 0
            invariant
                len == data@.len(),
                len <= isize::MAX,
                pos <= len + 4,
                goal == filters_at(
                    data@,
                    start as int,
                    number_of_filters as nat,
                    version,
                    Seq::empty(),
                ),
                goal == filters_at(
                    data@,
                    pos as int,
                    left as nat,
                    version,
                    filters.deep_view(),
                ),
            decreases left,
        {
            let ghost before = filters.deep_view();
            let (filter, next) = if version == 1 {
                FilterPipeline::parse_filter_v1(data, pos)?
            } else {
                FilterPipeline::parse_filter_v2(data, pos)?
            };
            filters.push(filter);
            assert(filters.deep_view() =~= before.push(filter.deep_view()));
            pos = next;
            left -= 1;
        }
        Ok(FilterPipeline { version, filters })
    }

    fn parse_filter_v1(data: &[u8], start: usize) -> (r: Result<
        (FilterDescription, usize),
        FormatError,
    >)
        requires
            start <= data@.len() + 4,
        ensures
            match r {
                Ok((f, next)) => filter_v1_at(data@, start as int) == Ok::<
                    (FilterModel, int),
                    ErrorModel,
                >((f.deep_view(), next as int)) && next <= data@.len() + 4,
                Err(e) => filter_v1_at(data@, start as int) == Err::<
                    (FilterModel, int),
                    ErrorModel,
                >(e.deep_view()),
            },
    {
        let _len: usize = byte_len(data);
        let mut pos: usize = start;
        ensure_len(data, pos, 8)?;
        let filter_id = order_u16(slice_subrange(data, pos, pos + 2));
        let name_length: usize = order_u16(slice_subrange(data, pos + 2, pos + 4)) as usize;
        let flags = order_u16(slice_subrange(data, pos + 4, pos + 6));
        let num_client_data: usize = order_u16(slice_subrange(data, pos + 6, pos + 8)) as usize;
        pos += 8;
        // Name (if present)
        let name = if name_length > 0 {
            ensure_len(data, pos, name_length)?;
            let name = read_name(slice_subrange(data, pos, pos + name_length));
            // Pad to 8-byte boundary
            pos += pad8(name_length);
            Some(name)
        } else {
            None
        };
        // Client data
        ensure_len(data, pos, num_client_data * 4)?;
        let client_data = read_client_data(data, pos, num_client_data);
        pos += num_client_data * 4;
        // Padding to 8-byte boundary if num_client_data is odd
        if num_client_data % 2 != 0 {
            pos += 4;
        }
        Ok((FilterDescription { filter_id, name, flags, client_data }, pos))
    }

    fn parse_filter_v2(data: &[u8], start: usize) -> (r: Result<
        (FilterDescription, usize),
        FormatError,
    >)
        requires
            start <= data@.len() + 4,
        ensures
            match r {
                Ok((f, next)) => filter_v2_at(data@, start as int) == Ok::<
                    (FilterModel, int),
                    ErrorModel,
                >((f.deep_view(), next as int)) && next <= data@.len() + 4,
                Err(e) => filter_v2_at(data@, start as int) == Err::<
                    (FilterModel, int),
                    ErrorModel,
                >(e.deep_view()),
            },
    {
        let _len: usize = byte_len(data);
        let mut pos: usize = start;
        ensure_len(data, pos, 2)?;
        let filter_id = order_u16(slice_subrange(data, pos, pos + 2));
        pos += 2;
        let name_length: usize = if filter_id >= 256 {
            ensure_len(data, pos, 2)?;
            let nl: usize = order_u16(slice_subrange(data, pos, pos + 2)) as usize;
            pos += 2;
            nl
        } else {
            0
        };
        ensure_len(data, pos, 4)?;
        let flags = order_u16(slice_subrange(data, pos, pos + 2));
        let num_client_data: usize = order_u16(slice_subrange(data, pos + 2, pos + 4)) as usize;
        pos += 4;
        let name = if name_length > 0 {
            ensure_len(data, pos, name_length)?;
            let name = read_name(slice_subrange(data, pos, pos + name_length));
            pos += name_length;
            Some(name)
        } else {
            None
        };
        ensure_len(data, pos, num_client_data * 4)?;
        let client_data = read_client_data(data, pos, num_client_data);
        // No padding in v2
        pos += num_client_data * 4;
        Ok((FilterDescription { filter_id, name, flags, client_data }, pos))
    }

    /// Serialize the filter pipeline to bytes.
    pub fn serialize(&self) -> (buf: Vec<u8>)
        ensures
            buf@ == self.deep_view().bytes(),
    {
        let mut buf: Vec<u8> = Vec::new();
        let count: u8 = (self.filters.len() % 256) as u8;
        assert(self.filters.deep_view().len() == self.filters@.len());
        match self.version {
            1 => {
                buf.push(1);  // version
                buf.push(count);
                put_fill(&mut buf, 0, 6);  // reserved
                assert(buf@ =~= seq![1u8, count, 0, 0, 0, 0, 0, 0]);
                self.write_filters(&mut buf, 1);
            },
            2 => {
                buf.push(2);  // version
                buf.push(count);
                assert(buf@ =~= seq![2u8, count]);
                self.write_filters(&mut buf, 2);
            },
            _ => {
                buf.push(self.version);
                buf.push(0);
                assert(buf@ =~= seq![self.version, 0]);
            },
        }
        buf
    }

    fn write_filters(&self, buf: &mut Vec<u8>, version: u8)
        ensures
            final(buf)@ == old(buf)@ + filters_bytes(self.filters.deep_view(), 0, version),
    {
        let ghost fs = self.filters.deep_view();
        let mut k: usize = 0;
        while k < self.filters.len()
            invariant
                k <= self.filters@.len(),
                fs == self.filters.deep_view(),
                buf@ + filters_bytes(fs, k as int, version) =~= old(buf)@ + filters_bytes(
                    fs,
                    0,
                    version,
                ),
            decreases self.filters@.len() - k,
        {
            let ghost before = buf@;
            assert(fs[k as int] == self.filters@[k as int].deep_view());
            if version == 1 {
                self.filters[k].serialize_v1(buf);
            } else {
                self.filters[k].serialize_v2(buf);
            }
            proof {
                let a = fs[k as int].bytes(version);
                let b = filters_bytes(fs, k + 1, version);
                assert(before + a + b =~= before + (a + b));
            }
            k += 1;
        }
        assert(buf@ + filters_bytes(fs, k as int, version) =~= buf@);
    }
}

impl FilterDescription {
    fn serialize_v1(&self, buf: &mut Vec<u8>)
        ensures
            final(buf)@ == old(buf)@ + self.deep_view().bytes_v1(),
    {
        let ghost m = self.deep_view();
        let name_bytes: Vec<u8> = match &self.name {
            Some(name) => name_to_bytes(name),
            None => {
                let nb: Vec<u8> = Vec::new();
                assert(nb@ =~= Seq::<u8>::empty());
                nb
            },
        };
        let nl: usize = byte_len(name_bytes.as_slice());
        let mut out: Vec<u8> = Vec::new();
        put_u16(&mut out, self.filter_id);
        assert(out@ =~= crate::bytes::le_bytes(self.filter_id as nat, 2));
        put_le(&mut out, nl as u64, 2);
        put_u16(&mut out, self.flags);
        put_le(&mut out, self.client_data.len() as u64, 2);
        put_slice(&mut out, name_bytes.as_slice());
        // Pad to 8-byte boundary
        put_fill(&mut out, 0, pad8(nl) - nl);
        write_client_data(&mut out, &self.client_data);
        // Pad if odd number of client data values
        put_fill(&mut out, 0, 4 * (self.client_data.len() % 2));
        assert(out@ == m.bytes_v1());
        put_slice(buf, out.as_slice());
    }

    fn serialize_v2(&self, buf: &mut Vec<u8>)
        ensures
            final(buf)@ == old(buf)@ + self.deep_view().bytes_v2(),
    {
        let ghost m = self.deep_view();
        let mut out: Vec<u8> = Vec::new();
        put_u16(&mut out, self.filter_id);
        assert(out@ =~= crate::bytes::le_bytes(self.filter_id as nat, 2));
        if self.filter_id >= 256 {
            let name_bytes: Vec<u8> = match &self.name {
                Some(name) => name_to_bytes(name),
                None => {
                    let mut nb: Vec<u8> = Vec::new();
                    nb.push(0);
                    assert(nb@ =~= seq![0u8]);
                    nb
                },
            };
            put_le(&mut out, name_bytes.len() as u64, 2);
            put_u16(&mut out, self.flags);
            put_le(&mut out, self.client_data.len() as u64, 2);
            put_slice(&mut out, name_bytes.as_slice());
        } else {
            put_u16(&mut out, self.flags);
            put_le(&mut out, self.client_data.len() as u64, 2);
        }
        write_client_data(&mut out, &self.client_data);
        assert(out@ == m.bytes_v2());
        put_slice(buf, out.as_slice());
    }
}

// ---- Laws ----

proof fn lemma_values_round_trip(d: Seq<u8>, pos: int, values: Seq<u32>, from: int, rest: Seq<u8>)
    requires
        0 <= pos <= d.len(),
        0 <= from <= values.len(),
        d.subrange(pos, d.len() as int) == values_bytes(values, from) + rest,
    ensures
        pos + 4 * (values.len() - from) <= d.len(),
        d.subrange(pos + 4 * (values.len() - from), d.len() as int) == rest,
        forall|i: int|
            from <= i < values.len() ==> #[trigger] values[i] == crate::bytes::u32_at(
                d,
                pos + 4 * (i - from),
            ),
    decreases values.len() - from,
{
    if from < values.len() {
        let a = crate::bytes::le_bytes(values[from] as nat, 4);
        let b = values_bytes(values, from + 1);
        crate::bytes::lemma_le_bytes_len(values[from] as nat, 4);
        assert(a + b + rest =~= a + (b + rest));
        crate::bytes::lemma_peel(d, pos, a, b + rest);
        crate::bytes::lemma_u32_round_trip(d, pos, values[from]);
        lemma_values_round_trip(d, pos + 4, values, from + 1, rest);
        assert forall|i: int| from <= i < values.len() implies #[trigger] values[i]
            == crate::bytes::u32_at(d, pos + 4 * (i - from)) by {
            if i > from {
                assert(pos + 4 + 4 * (i - (from + 1)) == pos + 4 * (i - from));
            }
        }
    } else {
        assert(values_bytes(values, from) + rest =~= rest);
    }
}

proof fn lemma_client_data_round_trip(d: Seq<u8>, pos: int, values: Seq<u32>, rest: Seq<u8>)
    requires
        0 <= pos <= d.len(),
        d.subrange(pos, d.len() as int) == values_bytes(values, 0) + rest,
    ensures
        pos + 4 * values.len() <= d.len(),
        d.subrange(pos + 4 * values.len(), d.len() as int) == rest,
        client_data_at(d, pos, values.len() as int) == values,
{
    lemma_values_round_trip(d, pos, values, 0, rest);
    assert(client_data_at(d, pos, values.len() as int) =~= values) by {
        assert forall|i: int| 0 <= i < values.len() implies client_data_at(
            d,
            pos,
            values.len() as int,
        )[i] == values[i] by {
            assert(values[i] == crate::bytes::u32_at(d, pos + 4 * (i - 0)));
        }
    }
}

proof fn lemma_name_round_trip(name: Seq<char>)
    requires
        forall|i: int| 0 <= i < name.len() ==> name[i] != '\0',
    ensures
        name_of(encode_utf8(name).push(0)) == name,
{
    let b = encode_utf8(name);
    let z = b.push(0);
    crate::text::lemma_no_zero_byte(name);
    assert forall|k: int| 0 <= k < b.len() implies z[k] != 0 by {
        assert(z[k] == b[k]);
    }
    crate::text::lemma_zero_from_is(z, 0, b.len() as int);
    assert(z.subrange(0, b.len() as int) =~= b);
    encode_utf8_valid_utf8(name);
    encode_utf8_decode_utf8(name);
}

/// The two bytes of `v` at `pos` are read back as `v`.
pub proof fn lemma_u16_field(d: Seq<u8>, pos: int, v: nat, rest: Seq<u8>)
    requires
        0 <= pos <= d.len(),
        v <= 0xFFFF,
        d.subrange(pos, d.len() as int) == crate::bytes::le_bytes(v, 2) + rest,
    ensures
        pos + 2 <= d.len(),
        crate::bytes::u16_at(d, pos) == v,
        d.subrange(pos + 2, d.len() as int) == rest,
{
    crate::bytes::lemma_le_bytes_len(v, 2);
    crate::bytes::lemma_peel(d, pos, crate::bytes::le_bytes(v, 2), rest);
    crate::bytes::lemma_u16_round_trip(d, pos, v as u16);
}

proof fn lemma_filter_v1_round_trip(d: Seq<u8>, pos: int, f: FilterModel, rest: Seq<u8>)
    requires
        0 <= pos <= d.len(),
        f.representable(1),
        d.subrange(pos, d.len() as int) == f.bytes_v1() + rest,
    ensures
        filter_v1_at(d, pos) == Ok::<(FilterModel, int), ErrorModel>(
            (f, pos + f.bytes_v1().len()),
        ),
        pos + f.bytes_v1().len() <= d.len(),
        d.subrange(pos + f.bytes_v1().len(), d.len() as int) == rest,
{
    let nb = f.name_bytes(Seq::empty());
    let n = f.client_data.len() as int;
    let id = crate::bytes::le_bytes(f.filter_id as nat, 2);
    let nl = crate::bytes::le_bytes(nb.len(), 2);
    let fl = crate::bytes::le_bytes(f.flags as nat, 2);
    let cn = crate::bytes::le_bytes(n as nat, 2);
    let pad = zeros(crate::utils::padded8(nb.len() as int) - nb.len());
    let vs = values_bytes(f.client_data, 0);
    let end = zeros(4 * (n % 2));
    let t4 = nb + (pad + (vs + (end + rest)));
    assert(f.bytes_v1() + rest =~= id + (nl + (fl + (cn + t4))));
    lemma_u16_field(d, pos, f.filter_id as nat, nl + (fl + (cn + t4)));
    lemma_u16_field(d, pos + 2, nb.len(), fl + (cn + t4));
    lemma_u16_field(d, pos + 4, f.flags as nat, cn + t4);
    lemma_u16_field(d, pos + 6, n as nat, t4);
    crate::bytes::lemma_peel(d, pos + 8, nb, pad + (vs + (end + rest)));
    crate::bytes::lemma_peel(d, pos + 8 + nb.len(), pad, vs + (end + rest));
    let p = pos + 8 + crate::utils::padded8(nb.len() as int);
    lemma_client_data_round_trip(d, p, f.client_data, end + rest);
    crate::bytes::lemma_peel(d, p + 4 * n, end, rest);
    if let Some(name) = f.name {
        lemma_name_round_trip(name);
    }
    assert(f.bytes_v1().len() == 8 + crate::utils::padded8(nb.len() as int) + 4 * (n + n % 2)) by {
        assert((f.bytes_v1() + rest).len() == d.len() - pos);
    }
}

proof fn lemma_filter_v2_round_trip(d: Seq<u8>, pos: int, f: FilterModel, rest: Seq<u8>)
    requires
        0 <= pos <= d.len(),
        f.representable(2),
        d.subrange(pos, d.len() as int) == f.bytes_v2() + rest,
    ensures
        filter_v2_at(d, pos) == Ok::<(FilterModel, int), ErrorModel>(
            (f, pos + f.bytes_v2().len()),
        ),
        pos + f.bytes_v2().len() <= d.len(),
        d.subrange(pos + f.bytes_v2().len(), d.len() as int) == rest,
{
    let nb = f.name_bytes(seq![0u8]);
    let n = f.client_data.len() as int;
    let id = crate::bytes::le_bytes(f.filter_id as nat, 2);
    let nl = crate::bytes::le_bytes(nb.len(), 2);
    let fl = crate::bytes::le_bytes(f.flags as nat, 2);
    let cn = crate::bytes::le_bytes(n as nat, 2);
    let vs = values_bytes(f.client_data, 0);
    if f.filter_id >= 256 {
        let t = nb + (vs + rest);
        assert(f.bytes_v2() + rest =~= id + (nl + (fl + (cn + t))));
        lemma_u16_field(d, pos, f.filter_id as nat, nl + (fl + (cn + t)));
        lemma_u16_field(d, pos + 2, nb.len(), fl + (cn + t));
        lemma_u16_field(d, pos + 4, f.flags as nat, cn + t);
        lemma_u16_field(d, pos + 6, n as nat, t);
        crate::bytes::lemma_peel(d, pos + 8, nb, vs + rest);
        lemma_client_data_round_trip(d, pos + 8 + nb.len(), f.client_data, rest);
        lemma_name_round_trip(f.name->0);
        assert(f.bytes_v2().len() == 8 + nb.len() + 4 * n) by {
            assert((f.bytes_v2() + rest).len() == d.len() - pos);
        }
    } else {
        let t = vs + rest;
        assert(f.bytes_v2() + rest =~= id + (fl + (cn + t)));
        lemma_u16_field(d, pos, f.filter_id as nat, fl + (cn + t));
        lemma_u16_field(d, pos + 2, f.flags as nat, cn + t);
        lemma_u16_field(d, pos + 4, n as nat, t);
        lemma_client_data_round_trip(d, pos + 6, f.client_data, rest);
        assert(f.bytes_v2().len() == 6 + 4 * n) by {
            assert((f.bytes_v2() + rest).len() == d.len() - pos);
        }
    }
}

proof fn lemma_filters_round_trip(
    d: Seq<u8>,
    pos: int,
    fs: Seq<FilterModel>,
    from: int,
    version: u8,
    rest: Seq<u8>,
)
    requires
        version == 1 || version == 2,
        0 <= pos <= d.len(),
        0 <= from <= fs.len(),
        forall|i: int| 0 <= i < fs.len() ==> #[trigger] fs[i].representable(version),
        d.subrange(pos, d.len() as int) == filters_bytes(fs, from, version) + rest,
    ensures
        filters_at(d, pos, (fs.len() - from) as nat, version, fs.subrange(0, from)) == Ok::<
            Seq<FilterModel>,
            ErrorModel,
        >(fs),
    decreases fs.len() - from,
{
    if from < fs.len() {
        let a = fs[from].bytes(version);
        let b = filters_bytes(fs, from + 1, version);
        assert(a + b + rest =~= a + (b + rest));
        assert(fs[from].representable(version));
        if version == 1 {
            lemma_filter_v1_round_trip(d, pos, fs[from], b + rest);
        } else {
            lemma_filter_v2_round_trip(d, pos, fs[from], b + rest);
        }
        lemma_filters_round_trip(d, pos + a.len(), fs, from + 1, version, rest);
        assert(fs.subrange(0, from).push(fs[from]) =~= fs.subrange(0, from + 1));
    } else {
        assert(fs.subrange(0, from) =~= fs);
    }
}

/// Parsing the bytes of a pipeline gives it back, whatever follows them.
#[verifier::spinoff_prover]
#[verifier::rlimit(60)]
pub proof fn law_pipeline_round_trip(m: PipelineModel, rest: Seq<u8>)
    requires
        m.representable(),
    ensures
        pipeline_of(m.bytes() + rest) == Ok::<PipelineModel, ErrorModel>(m),
{
    let d = m.bytes() + rest;
    let count = m.filters.len() as u8;
    let fb = filters_bytes(m.filters, 0, m.version);
    let head = if m.version == 1 {
        seq![1u8, count, 0, 0, 0, 0, 0, 0]
    } else {
        seq![2u8, count]
    };
    assert(d =~= head + (fb + rest));
    assert(d[0] == head[0] && d[1] == head[1]);
    assert(d.subrange(head.len() as int, d.len() as int) =~= fb + rest);
    lemma_filters_round_trip(d, head.len() as int, m.filters, 0, m.version, rest);
    assert(m.filters.subrange(0, 0) =~= Seq::<FilterModel>::empty());
}

} // verus!

//! Variable-length data: strings that stand in the global heap.

use vstd::prelude::*;
use vstd::slice::slice_subrange;
use crate::bytes::{byte_len, get_u32};
use crate::error::{ErrorModel, FormatError};
use crate::global_heap::GlobalHeapCollection;
use crate::text::decode_lossy;
use crate::utils::{is_undefined_offset, read_offset};

verus! {

broadcast use vstd::std_specs::control_flow::group_control_flow_axioms;

/// The text of an element: its length, the address of a global heap collection, and the index of
/// an object in it. An element without length or address is the empty text.
pub open spec fn vl_string(d: Seq<u8>, raw: Seq<u8>, p: int, os: u8, ls: u8) -> Result<
    Seq<char>,
    ErrorModel,
> {
    if !crate::utils::fits(raw, p, 8 + os) {
        Err(ErrorModel::VlDataError("variable-length data is too short"@))
    } else {
        let length = crate::bytes::u32_at(raw, p) as int;
        let index = crate::bytes::u32_at(raw, p + 4 + os) as u16;
        match crate::utils::offset_at(raw, p + 4, os) {
            Err(e) => Err(e),
            Ok(address) => if length == 0 || address == 0 || crate::utils::undefined_offset(
                address,
                os,
            ) {
                Ok(Seq::empty())
            } else {
                match crate::global_heap::collection_at(d, (address as usize) as int, ls) {
                    Err(e) => Err(e),
                    Ok(collection) => match crate::global_heap::object_with(
                        collection.objects,
                        index,
                        0,
                    ) {
                        None => Err(
                            ErrorModel::Plain(
                                FormatError::GlobalHeapObjectNotFound {
                                    collection_address: address,
                                    index,
                                },
                            ),
                        ),
                        Some(object) => Ok(
                            crate::text::lossy_text(
                                object.data.subrange(
                                    0,
                                    if length < object.data.len() {
                                        length
                                    } else {
                                        object.data.len() as int
                                    },
                                ),
                            ),
                        ),
                    },
                }
            },
        }
    }
}

/// The texts of the first `n` elements.
pub open spec fn vl_strings(d: Seq<u8>, raw: Seq<u8>, n: int, os: u8, ls: u8) -> Result<
    Seq<Seq<char>>,
    ErrorModel,
>
    decreases n,
{
    if n <= 0 {
        Ok(Seq::empty())
    } else {
        match vl_strings(d, raw, n - 1, os, ls) {
            Err(e) => Err(e),
            Ok(done) => match vl_string(d, raw, (n - 1) * (8 + os), os, ls) {
                Err(e) => Err(e),
                Ok(text) => Ok(done.push(text)),
            },
        }
    }
}

/// An error of one element is the error of all.
proof fn lemma_element_error(d: Seq<u8>, raw: Seq<u8>, k: int, n: int, os: u8, ls: u8)
    requires
        0 <= k <= n,
        vl_strings(d, raw, k, os, ls) is Err,
    ensures
        vl_strings(d, raw, n, os, ls) == vl_strings(d, raw, k, os, ls),
    decreases n - k,
{
    if k < n {
        lemma_element_error(d, raw, k, n - 1, os, ls);
    }
}

fn read_vl_string(file_data: &[u8], raw: &[u8], pos: usize, offset_size: u8, length_size: u8) -> (r:
    Result<String, FormatError>)
    ensures
        crate::error::outcome(r) == vl_string(
            file_data@,
            raw@,
            pos as int,
            offset_size,
            length_size,
        ),
{
    let len: usize = byte_len(raw);
    let os: usize = offset_size as usize;
    if pos > len || 8 + os > len - pos {
        return Err(FormatError::VlDataError("variable-length data is too short".to_owned()));
    }
    let length: usize = get_u32(raw, pos) as usize;
    let address = read_offset(raw, pos + 4, offset_size)?;
    let index: u16 = get_u32(raw, pos + 4 + os) as u16;
    if length == 0 || address == 0 || is_undefined_offset(address, offset_size) {
        let text = String::new();
        assert(text@ =~= Seq::<char>::empty());
        return Ok(text);
    }
    let collection = GlobalHeapCollection::parse(file_data, address as usize, length_size)?;
    match collection.get_object(index) {
        Some(object) => {
            let data = object.data.as_slice();
            let end: usize = if length < data.len() {
                length
            } else {
                data.len()
            };
            Ok(decode_lossy(slice_subrange(data, 0, end)))
        },
        None => Err(
            FormatError::GlobalHeapObjectNotFound { collection_address: address, index },
        ),
    }
}

/// Read variable-length strings: `num_elements` references into the global heap.
pub fn read_vl_strings(
    file_data: &[u8],
    raw_data: &[u8],
    num_elements: u64,
    offset_size: u8,
    length_size: u8,
) -> (r: Result<Vec<String>, FormatError>)
    ensures
        crate::error::outcome(r) == vl_strings(
            file_data@,
            raw_data@,
            num_elements as int,
            offset_size,
            length_size,
        ),
{
    let len: usize = byte_len(raw_data);
    let step: usize = 8 + offset_size as usize;
    let mut result: Vec<String> = Vec::new();
    let mut i: u64 = 0;
    let mut pos: usize = 0;
    assert(result.deep_view() =~= Seq::<Seq<char>>::empty());
    assert(0 * step == 0);
    while i < num_elements
        invariant
            i <= num_elements,
            len == raw_data@.len(),
            len <= isize::MAX,
            step == 8 + offset_size,
            pos == i * step,
            pos <= len,
            vl_strings(file_data@, raw_data@, i as int, offset_size, length_size) == Ok::<
                Seq<Seq<char>>,
                ErrorModel,
            >(result.deep_view()),
        decreases num_elements - i,
    {
        match read_vl_string(file_data, raw_data, pos, offset_size, length_size) {
            Ok(text) => {
                let ghost before = result.deep_view();
                let ghost added = text@;
                result.push(text);
                assert(result.deep_view() =~= before.push(added));
            },
            Err(e) => {
                proof {
                    lemma_element_error(
                        file_data@,
                        raw_data@,
                        i + 1,
                        num_elements as int,
                        offset_size,
                        length_size,
                    );
                }
                return Err(e);
            },
        }
        proof {
            assert((i + 1) * step == i * step + step) by (nonlinear_arith);
        }
        pos += step;
        i += 1;
    }
    Ok(result)
}

} // verus!

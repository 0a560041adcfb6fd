//! HDF5 Global Heap collection parsing.

use vstd::prelude::*;
use vstd::slice::{slice_subrange, slice_to_vec};
use crate::bytes::{byte_len, get_u16, tag_at};
use crate::dataspace::read_length;
use crate::error::{ErrorModel, FormatError};
use crate::utils::{ensure_len, pad8};

verus! {

broadcast use vstd::std_specs::control_flow::group_control_flow_axioms;

/// A single object within a global heap collection.
#[derive(Debug)]
pub struct GlobalHeapObject {
    /// Object index (1-based; 0 is the free space marker).
    pub index: u16,
    /// Reference count.
    pub reference_count: u16,
    /// Object data.
    pub data: Vec<u8>,
}

/// The content of a [`GlobalHeapObject`].
pub struct HeapObjectModel {
    pub index: u16,
    pub reference_count: u16,
    pub data: Seq<u8>,
}

impl DeepView for GlobalHeapObject {
    type V = HeapObjectModel;

    open spec fn deep_view(&self) -> HeapObjectModel {
        HeapObjectModel {
            index: self.index,
            reference_count: self.reference_count,
            data: self.data@,
        }
    }
}

impl Clone for GlobalHeapObject {
    fn clone(&self) -> (copy: Self)
        ensures
            copy.deep_view() == self.deep_view(),
    {
        GlobalHeapObject {
            index: self.index,
            reference_count: self.reference_count,
            data: slice_to_vec(self.data.as_slice()),
        }
    }
}

/// A parsed global heap collection.
#[derive(Debug, Clone)]
pub struct GlobalHeapCollection {
    /// Total size of this collection including header.
    pub collection_size: u64,
    /// Objects within this collection.
    pub objects: Vec<GlobalHeapObject>,
}

/// The content of a [`GlobalHeapCollection`].
pub struct CollectionModel {
    pub collection_size: u64,
    pub objects: Seq<HeapObjectModel>,
}

impl DeepView for GlobalHeapCollection {
    type V = CollectionModel;

    open spec fn deep_view(&self) -> CollectionModel {
        CollectionModel {
            collection_size: self.collection_size,
            objects: self.objects.deep_view(),
        }
    }
}

/// `done` and the objects from `pos` on, up to the free space marker or to `end`.
pub open spec fn objects_at(
    d: Seq<u8>,
    pos: int,
    end: int,
    ls: u8,
    done: Seq<HeapObjectModel>,
) -> Result<Seq<HeapObjectModel>, ErrorModel>
    decreases uncovered(d, pos),
{
    if pos + 2 > end {
        Ok(done)
    } else if !crate::utils::fits(d, pos, 2) {
        Err(crate::utils::eof(d, pos, 2))
    } else if crate::bytes::u16_at(d, pos) == 0 {
        Ok(done)
    } else if !crate::utils::fits(d, pos, 8 + ls) {
        Err(crate::utils::eof(d, pos, 8 + ls))
    } else {
        match crate::dataspace::length_at(d, pos + 8, ls) {
            Err(e) => Err(e),
            Ok(size) => {
                let n = (size as usize) as int;
                let q = pos + 8 + ls;
                if !crate::utils::fits(d, q, n) {
                    Err(crate::utils::eof(d, q, n))
                } else {
                    objects_at(
                        d,
                        q + crate::utils::padded8(n),
                        end,
                        ls,
                        done.push(
                            HeapObjectModel {
                                index: crate::bytes::u16_at(d, pos),
                                reference_count: crate::bytes::u16_at(d, pos + 2),
                                data: d.subrange(q, q + n),
                            },
                        ),
                    )
                }
            },
        }
    }
}

/// The number of bytes behind `pos`.
pub open spec fn uncovered(d: Seq<u8>, pos: int) -> int {
    if pos < d.len() {
        d.len() - pos
    } else {
        0
    }
}

/// The collection at `p`.
pub open spec fn collection_at(d: Seq<u8>, p: int, ls: u8) -> Result<CollectionModel, ErrorModel> {
    if !crate::utils::fits(d, p, 8 + ls) {
        Err(crate::utils::eof(d, p, 8 + ls))
    } else if !crate::bytes::has_tag(d, p, seq![0x47, 0x43, 0x4F, 0x4C]) {
        Err(ErrorModel::Plain(FormatError::InvalidGlobalHeapSignature))
    } else if d[p + 4] != 1 {
        Err(ErrorModel::Plain(FormatError::InvalidGlobalHeapVersion(d[p + 4])))
    } else {
        match crate::dataspace::length_at(d, p + 8, ls) {
            Err(e) => Err(e),
            Ok(collection_size) => match objects_at(
                d,
                p + 8 + ls,
                p + (collection_size as usize),
                ls,
                Seq::empty(),
            ) {
                Err(e) => Err(e),
                Ok(objects) => Ok(CollectionModel { collection_size, objects }),
            },
        }
    }
}

/// The first object at or behind the `from`-th with the given index.
pub open spec fn object_with(objects: Seq<HeapObjectModel>, index: u16, from: int) -> Option<
    HeapObjectModel,
>
    decreases objects.len() - from,
{
    if from >= objects.len() {
        None
    } else if objects[from].index == index {
        Some(objects[from])
    } else {
        object_with(objects, index, from + 1)
    }
}

impl GlobalHeapCollection {
    /// Parse a global heap collection at the given offset in the file data.
    pub fn parse(file_data: &[u8], offset: usize, length_size: u8) -> (r: Result<
        GlobalHeapCollection,
        FormatError,
    >)
        ensures
            crate::error::outcome(r) == collection_at(file_data@, offset as int, length_size),
    {
        let len: usize = byte_len(file_data);
        let ghost d = file_data@;
        let ghost p = offset as int;
        // signature(4) + version(1) + reserved(3) + collection_size(length_size)
        let header_size: usize = 8 + length_size as usize;
        ensure_len(file_data, offset, header_size)?;
        if !tag_at(file_data, offset, 0x47, 0x43, 0x4F, 0x4C) {
            return Err(FormatError::InvalidGlobalHeapSignature);
        }
        let version = file_data[offset + 4];
        if version != 1 {
            return Err(FormatError::InvalidGlobalHeapVersion(version));
        }
        let collection_size = read_length(file_data, offset + 8, length_size)?;
        let size: usize = collection_size as usize;
        let ghost end = p + size;
        let mut pos: usize = offset + header_size;
        let mut objects: Vec<GlobalHeapObject> = Vec::new();
        let ghost goal = objects_at(d, pos as int, end, length_size, Seq::empty());
        assert(objects.deep_view() =~= Seq::<HeapObjectModel>::empty());
        // Parse objects until we hit index 0 (free space) or run out of space
        while pos - offset + 2 <= size
            invariant_except_break
                offset <= pos <= len + 7,
                goal == objects_at(d, pos as int, end, length_size, objects.deep_view()),
            invariant
                d == file_data@,
                len == d.len(),
                len <= isize::MAX,
                p == offset,
                end == p + size,
                header_size == 8 + length_size,
                size == collection_size as usize,
                collection_at(d, p, length_size) == match goal {
                    Err(e) => Err::<CollectionModel, ErrorModel>(e),
                    Ok(objects) => Ok(CollectionModel { collection_size, objects }),
                },
            ensures
                goal == Ok::<Seq<HeapObjectModel>, ErrorModel>(objects.deep_view()),
            decreases len + 8 - pos,
        {
            ensure_len(file_data, pos, 2)?;
            let object_index = get_u16(file_data, pos);
            if object_index == 0 {
                // Free space marker: done
                break;
            }
            // object_index(2) + reference_count(2) + reserved(4) + object_size(length_size)
            ensure_len(file_data, pos, header_size)?;
            let reference_count = get_u16(file_data, pos + 2);
            let object_size: usize = read_length(file_data, pos + 8, length_size)? as usize;
            let start: usize = pos + header_size;
            ensure_len(file_data, start, object_size)?;
            let object = GlobalHeapObject {
                index: object_index,
                reference_count,
                data: slice_to_vec(slice_subrange(file_data, start, start + object_size)),
            };
            let ghost before = objects.deep_view();
            let ghost added = object.deep_view();
            objects.push(object);
            assert(objects.deep_view() =~= before.push(added));
            // Advance past data + padding to 8-byte boundary
            pos = start + pad8(object_size);
        }
        Ok(GlobalHeapCollection { collection_size, objects })
    }

    /// Get an object by its index.
    pub fn get_object(&self, index: u16) -> (r: Option<&GlobalHeapObject>)
        ensures
            match r {
                Some(object) => object_with(self.deep_view().objects, index, 0) == Some(
                    object.deep_view(),
                ),
                None => object_with(self.deep_view().objects, index, 0) is None,
            },
    {
        let ghost all = self.objects.deep_view();
        let mut k: usize = 0;
        while k < self.objects.len()
            invariant
                k <= self.objects@.len(),
                all == self.objects.deep_view(),
                object_with(all, index, 0) == object_with(all, index, k as int),
            decreases self.objects@.len() - k,
        {
            assert(all[k as int] == self.objects@[k as int].deep_view());
            if self.objects[k].index == index {
                return Some(&self.objects[k]);
            }
            k += 1;
        }
        None
    }
}

} // verus!

//! Data that are refused: of another type than is asked for, of an incomplete element, or without a
//! place in the file.

use vstd::prelude::*;
use crate::data_layout::DataLayoutModel;
use crate::data_read;
use crate::dataspace::DataspaceModel;
use crate::datatype::{DatatypeModel, ReferenceType};
use crate::error::{ErrorModel, FormatError};
use crate::filter_pipeline::PipelineModel;
use crate::refusals;

verus! {

/// Numbers are read from integers and floating-point numbers only, texts from strings, fields from
/// compounds, values with names from enumerations, and references from references of their kind.
/// Other types are refused with their name.
pub proof fn law_other_types_are_refused(
    raw: Seq<u8>,
    m: DatatypeModel,
    expected: &'static str,
    os: u8,
)
    ensures
        !(m is FixedPoint) && !(m is FloatingPoint) ==> {
            &&& refusals::refused(
                data_read::signed_values(raw, m, expected),
                FormatError::TypeMismatch { expected, actual: m.class_name() },
            )
            &&& refusals::refused(
                data_read::unsigned_values(raw, m),
                FormatError::TypeMismatch {
                    expected: "FixedPoint (unsigned)",
                    actual: m.class_name(),
                },
            )
        },
        !(m is String) ==> refusals::refused(
            data_read::strings_of(raw, m),
            FormatError::TypeMismatch { expected: "String", actual: m.class_name() },
        ),
        !(m is Compound) ==> refusals::refused(
            data_read::fields_of(raw, m),
            FormatError::TypeMismatch { expected: "Compound", actual: m.class_name() },
        ),
        !(m is Enumeration) ==> data_read::enum_values(raw, m) is Err,
        !(m matches DatatypeModel::Reference { ref_type: ReferenceType::Object, .. })
            ==> refusals::refused(
            data_read::object_references(raw, m, os),
            FormatError::TypeMismatch { expected: "Reference(Object)", actual: m.class_name() },
        ),
        !(m matches DatatypeModel::Reference { ref_type: ReferenceType::DatasetRegion, .. })
            ==> refusals::refused(
            data_read::region_references(raw, m),
            FormatError::TypeMismatch {
                expected: "Reference(DatasetRegion)",
                actual: m.class_name(),
            },
        ),
{
}

/// Data that end within an element are refused with their number of bytes.
pub proof fn law_incomplete_elements_are_refused(
    raw: Seq<u8>,
    m: DatatypeModel,
    expected: &'static str,
    os: u8,
)
    requires
        m.size() > 0,
        raw.len() as int % m.size() as int != 0,
        raw.len() <= usize::MAX,
    ensures
        ({
            let e = FormatError::DataSizeMismatch { expected: 0, actual: raw.len() as usize };
            &&& m is FixedPoint || m is FloatingPoint ==> refusals::refused(
                data_read::signed_values(raw, m, expected),
                e,
            ) && refusals::refused(data_read::unsigned_values(raw, m), e)
            &&& m is String ==> refusals::refused(data_read::strings_of(raw, m), e)
            &&& m is Compound ==> refusals::refused(data_read::fields_of(raw, m), e)
            &&& m is Enumeration ==> refusals::refused(data_read::enum_values(raw, m), e)
            &&& m matches DatatypeModel::Reference { ref_type: ReferenceType::Object, .. }
                ==> refusals::refused(data_read::object_references(raw, m, os), e)
            &&& m matches DatatypeModel::Reference { ref_type: ReferenceType::DatasetRegion, .. }
                ==> refusals::refused(data_read::region_references(raw, m), e)
        }),
{
}

/// Data without an address are refused, and so are chunks with another number of axes than the data
/// set.
pub proof fn law_data_without_a_place_are_refused(
    d: Seq<u8>,
    layout: DataLayoutModel,
    space: DataspaceModel,
    size: u32,
    pipeline: Option<PipelineModel>,
    os: u8,
    ls: u8,
)
    ensures
        layout matches DataLayoutModel::Contiguous { address: None, .. } ==> refusals::refused(
            data_read::raw_data(d, layout, space, size, pipeline, os, ls),
            FormatError::NoDataAllocated,
        ),
        layout matches DataLayoutModel::Chunked { btree_address: None, .. }
            ==> data_read::raw_data(d, layout, space, size, pipeline, os, ls) == Err::<
            Seq<u8>,
            ErrorModel,
        >(ErrorModel::ChunkedReadError("no address for chunked layout"@)),
        layout matches DataLayoutModel::Chunked { chunk_dimensions, .. } && chunk_dimensions.len()
            != space.dimensions.len() + 1 ==> data_read::raw_data(
            d,
            layout,
            space,
            size,
            pipeline,
            os,
            ls,
        ) is Err,
        layout is Virtual ==> data_read::raw_data(d, layout, space, size, pipeline, os, ls) is Err,
{
}

/// The names of the classes of datatypes.
pub proof fn law_names_of_classes(m: DatatypeModel)
    ensures
        m is FixedPoint ==> m.class_name() == "FixedPoint",
        m is FloatingPoint ==> m.class_name() == "FloatingPoint",
        m is Time ==> m.class_name() == "Time",
        m is String ==> m.class_name() == "String",
        m is BitField ==> m.class_name() == "BitField",
        m is Opaque ==> m.class_name() == "Opaque",
        m is Compound ==> m.class_name() == "Compound",
        m is Reference ==> m.class_name() == "Reference",
        m is Enumeration ==> m.class_name() == "Enumeration",
        m is VariableLength ==> m.class_name() == "VariableLength",
        m is Array ==> m.class_name() == "Array",
{
}

} // verus!

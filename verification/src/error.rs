//! Errors reported while reading or writing HDF5 structures.

use vstd::prelude::*;

verus! {

/// Errors that can occur when handling HDF5 binary format structures.
#[derive(Debug, Clone, PartialEq, Eq)]
pub enum FormatError {
    /// The HDF5 magic signature was not found at any valid offset.
    SignatureNotFound,
    /// The superblock version is not supported.
    UnsupportedVersion(u8),
    /// Unexpected end of data.
    UnexpectedEof {
        /// Number of bytes expected.
        expected: usize,
        /// Number of bytes actually available.
        available: usize,
    },
    /// Invalid offset size (must be 2, 4, or 8).
    InvalidOffsetSize(u8),
    /// Invalid length size (must be 2, 4, or 8).
    InvalidLengthSize(u8),
    /// Invalid object header signature.
    InvalidObjectHeaderSignature,
    /// Invalid object header version.
    InvalidObjectHeaderVersion(u8),
    /// Unknown message type that is marked as must-understand.
    UnsupportedMessage(u16),
    /// Invalid datatype class.
    InvalidDatatypeClass(u8),
    /// Invalid datatype version for a given class.
    InvalidDatatypeVersion {
        /// The type class.
        class: u8,
        /// The version found.
        version: u8,
    },
    /// Invalid string padding type.
    InvalidStringPadding(u8),
    /// Invalid character set.
    InvalidCharacterSet(u8),
    /// Invalid byte order.
    InvalidByteOrder(u8),
    /// Invalid reference type.
    InvalidReferenceType(u8),
    /// Invalid dataspace version.
    InvalidDataspaceVersion(u8),
    /// Invalid dataspace type.
    InvalidDataspaceType(u8),
    /// Invalid data layout version.
    InvalidLayoutVersion(u8),
    /// Invalid data layout class.
    InvalidLayoutClass(u8),
    /// No data allocated for contiguous layout.
    NoDataAllocated,
    /// Type mismatch when reading data.
    TypeMismatch {
        /// Expected type description.
        expected: &'static str,
        /// Actual type description.
        actual: &'static str,
    },
    /// Data size mismatch.
    DataSizeMismatch {
        /// Expected size in bytes.
        expected: usize,
        /// Actual size in bytes.
        actual: usize,
    },
    /// Invalid local heap signature.
    InvalidLocalHeapSignature,
    /// Invalid local heap version.
    InvalidLocalHeapVersion(u8),
    /// Invalid B-tree v1 signature.
    InvalidBTreeSignature,
    /// Invalid B-tree node type.
    InvalidBTreeNodeType(u8),
    /// Invalid symbol table node signature.
    InvalidSymbolTableNodeSignature,
    /// Invalid symbol table node version.
    InvalidSymbolTableNodeVersion(u8),
    /// Path not found during group traversal.
    PathNotFound(String),
    /// Invalid Link message version.
    InvalidLinkVersion(u8),
    /// Invalid link type code.
    InvalidLinkType(u8),
    /// Invalid Link Info message version.
    InvalidLinkInfoVersion(u8),
    /// Invalid Group Info message version.
    InvalidGroupInfoVersion(u8),
    /// Invalid B-tree v2 signature.
    InvalidBTreeV2Signature,
    /// Invalid B-tree v2 version.
    InvalidBTreeV2Version(u8),
    /// Invalid fractal heap signature.
    InvalidFractalHeapSignature,
    /// Invalid fractal heap version.
    InvalidFractalHeapVersion(u8),
    /// Invalid heap ID type.
    InvalidHeapIdType(u8),
    /// Invalid attribute message version.
    InvalidAttributeVersion(u8),
    /// Invalid Attribute Info message version.
    InvalidAttributeInfoVersion(u8),
    /// Invalid shared message version.
    InvalidSharedMessageVersion(u8),
    /// Invalid SOHM table version.
    InvalidSohmTableVersion(u8),
    /// Invalid SOHM table signature (expected "SMTB").
    InvalidSohmTableSignature,
    /// Invalid SOHM list signature (expected "SMLI").
    InvalidSohmListSignature,
    /// Invalid global heap collection signature.
    InvalidGlobalHeapSignature,
    /// Invalid global heap version.
    InvalidGlobalHeapVersion(u8),
    /// Global heap object not found.
    GlobalHeapObjectNotFound {
        /// Address of the collection.
        collection_address: u64,
        /// Index that was not found.
        index: u16,
    },
    /// Variable-length data error.
    VlDataError(String),
    /// Serialization error.
    SerializationError(String),
    /// Dataset is missing data.
    DatasetMissingData,
    /// Dataset is missing shape.
    DatasetMissingShape,
    /// Invalid filter pipeline version.
    InvalidFilterPipelineVersion(u8),
    /// Unsupported filter ID.
    UnsupportedFilter(u16),
    /// Filter processing error.
    FilterError(String),
    /// Decompression error.
    DecompressionError(String),
    /// Compression error.
    CompressionError(String),
    /// Fletcher32 checksum mismatch.
    Fletcher32Mismatch {
        /// Expected checksum.
        expected: u32,
        /// Computed checksum.
        computed: u32,
    },
    /// Chunked dataset read error.
    ChunkedReadError(String),
    /// Chunk assembly error.
    ChunkAssemblyError(String),
    /// CRC32C checksum mismatch.
    ChecksumMismatch {
        /// The checksum stored in the file.
        expected: u32,
        /// The checksum we computed.
        computed: u32,
    },
    /// Maximum nesting/continuation depth exceeded (malformed data protection).
    NestingDepthExceeded,
    /// Duplicate dataset name detected during parallel metadata merge.
    DuplicateDatasetName(String),
    /// General error message
    GeneralError(String),
}

/// The content of a [`FormatError`], with its owned text as a sequence of characters.
pub enum ErrorModel {
    /// Any error without owned text.
    Plain(FormatError),
    PathNotFound(Seq<char>),
    VlDataError(Seq<char>),
    SerializationError(Seq<char>),
    FilterError(Seq<char>),
    DecompressionError(Seq<char>),
    CompressionError(Seq<char>),
    ChunkedReadError(Seq<char>),
    ChunkAssemblyError(Seq<char>),
    DuplicateDatasetName(Seq<char>),
    GeneralError(Seq<char>),
}

impl DeepView for FormatError {
    type V = ErrorModel;

    open spec fn deep_view(&self) -> ErrorModel {
        match self {
            FormatError::PathNotFound(text) => ErrorModel::PathNotFound(text@),
            FormatError::VlDataError(text) => ErrorModel::VlDataError(text@),
            FormatError::SerializationError(text) => ErrorModel::SerializationError(text@),
            FormatError::FilterError(text) => ErrorModel::FilterError(text@),
            FormatError::DecompressionError(text) => ErrorModel::DecompressionError(text@),
            FormatError::CompressionError(text) => ErrorModel::CompressionError(text@),
            FormatError::ChunkedReadError(text) => ErrorModel::ChunkedReadError(text@),
            FormatError::ChunkAssemblyError(text) => ErrorModel::ChunkAssemblyError(text@),
            FormatError::DuplicateDatasetName(text) => ErrorModel::DuplicateDatasetName(text@),
            FormatError::GeneralError(text) => ErrorModel::GeneralError(text@),
            _ => ErrorModel::Plain(*self),
        }
    }
}

/// A result by its content: the model of the value, or the model of the error.
pub open spec fn outcome<T: DeepView>(r: Result<T, FormatError>) -> Result<T::V, ErrorModel> {
    match r {
        Ok(value) => Ok(value.deep_view()),
        Err(error) => Err(error.deep_view()),
    }
}

impl FormatError {
    /// A general error with the given text.
    pub fn stop(e: &'static str) -> (error: Self)
        ensures
            error.deep_view() == ErrorModel::GeneralError(e@),
    {
        FormatError::GeneralError(e.to_owned())
    }

    /// A chunked read error with the given text.
    pub(crate) fn chunked(text: &'static str) -> (error: Self)
        ensures
            error.deep_view() == ErrorModel::ChunkedReadError(text@),
    {
        FormatError::ChunkedReadError(text.to_owned())
    }

    /// A chunked read error with the given text and a number behind it.
    pub(crate) fn chunked_number(text: &'static str, n: u64) -> (error: Self)
        ensures
            error.deep_view() == ErrorModel::ChunkedReadError(
                text@ + crate::text::decimal(n as nat),
            ),
    {
        let mut message = text.to_owned();
        crate::text::put_decimal(&mut message, n);
        FormatError::ChunkedReadError(message)
    }
}

} // verus!

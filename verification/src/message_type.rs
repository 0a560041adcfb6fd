//! HDF5 object header message type identifiers.

use vstd::prelude::*;

verus! {

/// Recognized HDF5 header message types.
#[derive(Debug, Clone, Copy, PartialEq, Eq, Structural)]
pub enum MessageType {
    Nil,
    Dataspace,
    LinkInfo,
    Datatype,
    FillValueOld,
    FillValue,
    Link,
    DataLayout,
    GroupInfo,
    FilterPipeline,
    Attribute,
    ObjectHeaderContinuation,
    SymbolTable,
    ObjectModificationTime,
    BTreeKValues,
    SharedMessageTable,
    AttributeInfo,
    ObjectReferenceCount,
    /// Unknown message type with its raw type ID.
    Unknown(u16),
}

impl DeepView for MessageType {
    type V = MessageType;

    open spec fn deep_view(&self) -> MessageType {
        *self
    }
}

/// The message type with the given type ID.
pub open spec fn type_of_id(val: u16) -> MessageType {
    match val {
        0x0000 => MessageType::Nil,
        0x0001 => MessageType::Dataspace,
        0x0002 => MessageType::LinkInfo,
        0x0003 => MessageType::Datatype,
        0x0004 => MessageType::FillValueOld,
        0x0005 => MessageType::FillValue,
        0x0006 => MessageType::Link,
        0x0008 => MessageType::DataLayout,
        0x000A => MessageType::GroupInfo,
        0x000B => MessageType::FilterPipeline,
        0x000C => MessageType::Attribute,
        0x000F => MessageType::SharedMessageTable,
        0x0010 => MessageType::ObjectHeaderContinuation,
        0x0011 => MessageType::SymbolTable,
        0x0012 => MessageType::ObjectModificationTime,
        0x0013 => MessageType::BTreeKValues,
        0x0015 => MessageType::AttributeInfo,
        0x0016 => MessageType::ObjectReferenceCount,
        _ => MessageType::Unknown(val),
    }
}

/// The type ID of a message type.
pub open spec fn id_of_type(t: MessageType) -> u16 {
    match t {
        MessageType::Nil => 0x0000,
        MessageType::Dataspace => 0x0001,
        MessageType::LinkInfo => 0x0002,
        MessageType::Datatype => 0x0003,
        MessageType::FillValueOld => 0x0004,
        MessageType::FillValue => 0x0005,
        MessageType::Link => 0x0006,
        MessageType::DataLayout => 0x0008,
        MessageType::GroupInfo => 0x000A,
        MessageType::FilterPipeline => 0x000B,
        MessageType::Attribute => 0x000C,
        MessageType::SharedMessageTable => 0x000F,
        MessageType::ObjectHeaderContinuation => 0x0010,
        MessageType::SymbolTable => 0x0011,
        MessageType::ObjectModificationTime => 0x0012,
        MessageType::BTreeKValues => 0x0013,
        MessageType::AttributeInfo => 0x0015,
        MessageType::ObjectReferenceCount => 0x0016,
        MessageType::Unknown(v) => v,
    }
}

impl MessageType {
    /// Convert a raw u16 type ID to a `MessageType`.
    pub fn from_u16(val: u16) -> (t: Self)
        ensures
            t == type_of_id(val),
    {
        match val {
            0x0000 => MessageType::Nil,
            0x0001 => MessageType::Dataspace,
            0x0002 => MessageType::LinkInfo,
            0x0003 => MessageType::Datatype,
            0x0004 => MessageType::FillValueOld,
            0x0005 => MessageType::FillValue,
            0x0006 => MessageType::Link,
            0x0008 => MessageType::DataLayout,
            0x000A => MessageType::GroupInfo,
            0x000B => MessageType::FilterPipeline,
            0x000C => MessageType::Attribute,
            0x000F => MessageType::SharedMessageTable,
            0x0010 => MessageType::ObjectHeaderContinuation,
            0x0011 => MessageType::SymbolTable,
            0x0012 => MessageType::ObjectModificationTime,
            0x0013 => MessageType::BTreeKValues,
            0x0015 => MessageType::AttributeInfo,
            0x0016 => MessageType::ObjectReferenceCount,
            other => MessageType::Unknown(other),
        }
    }

    /// Convert back to the raw u16 type ID.
    pub fn to_u16(self) -> (val: u16)
        ensures
            val == id_of_type(self),
    {
        match self {
            MessageType::Nil => 0x0000,
            MessageType::Dataspace => 0x0001,
            MessageType::LinkInfo => 0x0002,
            MessageType::Datatype => 0x0003,
            MessageType::FillValueOld => 0x0004,
            MessageType::FillValue => 0x0005,
            MessageType::Link => 0x0006,
            MessageType::DataLayout => 0x0008,
            MessageType::GroupInfo => 0x000A,
            MessageType::FilterPipeline => 0x000B,
            MessageType::Attribute => 0x000C,
            MessageType::SharedMessageTable => 0x000F,
            MessageType::ObjectHeaderContinuation => 0x0010,
            MessageType::SymbolTable => 0x0011,
            MessageType::ObjectModificationTime => 0x0012,
            MessageType::BTreeKValues => 0x0013,
            MessageType::AttributeInfo => 0x0015,
            MessageType::ObjectReferenceCount => 0x0016,
            MessageType::Unknown(v) => v,
        }
    }
}

/// Every type ID is the ID of the message type that it stands for.
pub proof fn law_id_round_trip(val: u16)
    ensures
        id_of_type(type_of_id(val)) == val,
{
}

/// A message type is found again by its ID, unless it is `Unknown` with the ID of a known type.
pub proof fn law_type_round_trip(t: MessageType)
    ensures
        type_of_id(id_of_type(t)) == t <==> (t matches MessageType::Unknown(v) ==> type_of_id(
            v,
        ) is Unknown),
{
}

/// The types of messages by their IDs. All other IDs stand for no known type.
pub proof fn law_types_by_id(val: u16)
    ensures
        type_of_id(0) == MessageType::Nil,
        type_of_id(1) == MessageType::Dataspace,
        type_of_id(2) == MessageType::LinkInfo,
        type_of_id(3) == MessageType::Datatype,
        type_of_id(4) == MessageType::FillValueOld,
        type_of_id(5) == MessageType::FillValue,
        type_of_id(6) == MessageType::Link,
        type_of_id(8) == MessageType::DataLayout,
        type_of_id(10) == MessageType::GroupInfo,
        type_of_id(11) == MessageType::FilterPipeline,
        type_of_id(12) == MessageType::Attribute,
        type_of_id(15) == MessageType::SharedMessageTable,
        type_of_id(16) == MessageType::ObjectHeaderContinuation,
        type_of_id(17) == MessageType::SymbolTable,
        type_of_id(18) == MessageType::ObjectModificationTime,
        type_of_id(19) == MessageType::BTreeKValues,
        type_of_id(21) == MessageType::AttributeInfo,
        type_of_id(22) == MessageType::ObjectReferenceCount,
        val > 22 || val == 7 || val == 9 || val == 13 || val == 14 || val == 20 ==> type_of_id(val)
            == MessageType::Unknown(val),
{
}

} // verus!

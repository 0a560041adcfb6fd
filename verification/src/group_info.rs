//! HDF5 Group Info message parsing (message type 0x000A).

use vstd::prelude::*;
use crate::bytes::get_u16;
use crate::error::{ErrorModel, FormatError};
use crate::utils::ensure_len;

verus! {

broadcast use vstd::std_specs::control_flow::group_control_flow_axioms;

/// Parsed Group Info message.
#[derive(Debug, Clone, Copy, PartialEq, Eq)]
pub struct GroupInfoMessage {
    /// Maximum number of links in compact storage before switching to dense.
    pub max_compact: Option<u16>,
    /// Minimum number of links in dense storage before switching back to compact.
    pub min_dense: Option<u16>,
    /// Estimated number of entries (hint).
    pub estimated_num_entries: Option<u16>,
    /// Estimated average link name length (hint).
    pub estimated_name_length: Option<u16>,
}

impl DeepView for GroupInfoMessage {
    type V = GroupInfoMessage;

    open spec fn deep_view(&self) -> GroupInfoMessage {
        *self
    }
}

/// The two numbers at `pos`, which are there if `present`.
pub open spec fn pair_at(d: Seq<u8>, pos: int, present: bool) -> Result<
    (Option<u16>, Option<u16>),
    ErrorModel,
> {
    if !present {
        Ok((None, None))
    } else if !crate::utils::fits(d, pos, 4) {
        Err(crate::utils::eof(d, pos, 4))
    } else {
        Ok((Some(crate::bytes::u16_at(d, pos)), Some(crate::bytes::u16_at(d, pos + 2))))
    }
}

/// The group info that the message `d` holds.
pub open spec fn group_info_of(d: Seq<u8>) -> Result<GroupInfoMessage, ErrorModel> {
    if !crate::utils::fits(d, 0, 2) {
        Err(crate::utils::eof(d, 0, 2))
    } else if d[0] != 0 {
        Err(ErrorModel::Plain(FormatError::InvalidGroupInfoVersion(d[0])))
    } else {
        let phased = d[1] % 2 == 1;
        let estimated = d[1] / 2 % 2 == 1;
        match pair_at(d, 2, phased) {
            Err(e) => Err(e),
            Ok((max_compact, min_dense)) => match pair_at(
                d,
                if phased {
                    6
                } else {
                    2
                },
                estimated,
            ) {
                Err(e) => Err(e),
                Ok((estimated_num_entries, estimated_name_length)) => Ok(
                    GroupInfoMessage {
                        max_compact,
                        min_dense,
                        estimated_num_entries,
                        estimated_name_length,
                    },
                ),
            },
        }
    }
}

fn read_pair(data: &[u8], pos: usize, present: bool) -> (r: Result<
    (Option<u16>, Option<u16>),
    FormatError,
>)
    ensures
        match r {
            Ok(pair) => pair_at(data@, pos as int, present) == Ok::<
                (Option<u16>, Option<u16>),
                ErrorModel,
            >(pair),
            Err(e) => pair_at(data@, pos as int, present) == Err::<
                (Option<u16>, Option<u16>),
                ErrorModel,
            >(e.deep_view()),
        },
{
    if !present {
        return Ok((None, None));
    }
    ensure_len(data, pos, 4)?;
    assert(data.len() == data@.len());
    Ok((Some(get_u16(data, pos)), Some(get_u16(data, pos + 2))))
}

impl GroupInfoMessage {
    /// Parse a Group Info message from raw message data.
    pub fn parse(data: &[u8]) -> (r: Result<Self, FormatError>)
        ensures
            crate::error::outcome(r) == group_info_of(data@),
    {
        ensure_len(data, 0, 2)?;
        let version = data[0];
        if version != 0 {
            return Err(FormatError::InvalidGroupInfoVersion(version));
        }
        let flags = data[1];
        let has_link_phase = flags % 2 == 1;
        let has_estimated = flags / 2 % 2 == 1;
        let (max_compact, min_dense) = read_pair(data, 2, has_link_phase)?;
        let pos: usize = if has_link_phase {
            6
        } else {
            2
        };
        let (estimated_num_entries, estimated_name_length) = read_pair(data, pos, has_estimated)?;
        Ok(
            GroupInfoMessage {
                max_compact,
                min_dense,
                estimated_num_entries,
                estimated_name_length,
            },
        )
    }
}

} // verus!

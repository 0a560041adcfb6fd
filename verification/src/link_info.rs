//! HDF5 Link Info message parsing (message type 0x0002).

use vstd::prelude::*;
use crate::bytes::get_u64;
use crate::error::{ErrorModel, FormatError};
use crate::utils::{ensure_len, read_defined};

verus! {

broadcast use vstd::std_specs::control_flow::group_control_flow_axioms;

/// Parsed Link Info message from a v2 group object header.
#[derive(Debug, Clone, Copy, PartialEq, Eq)]
pub struct LinkInfoMessage {
    /// Maximum creation order value (if tracking is enabled).
    pub max_creation_order: Option<u64>,
    /// Address of fractal heap for dense link storage. None means compact storage only.
    pub fractal_heap_address: Option<u64>,
    /// Address of B-tree v2 for name-ordered link index.
    pub btree_name_index_address: Option<u64>,
    /// Address of B-tree v2 for creation-order link index.
    pub btree_creation_order_address: Option<u64>,
}

impl DeepView for LinkInfoMessage {
    type V = LinkInfoMessage;

    open spec fn deep_view(&self) -> LinkInfoMessage {
        *self
    }
}

/// The message that `d` holds: version, flags, the largest creation order if the first flag is
/// set, and the addresses of the heap and of the indexes, the last of them if the second flag is
/// set.
pub open spec fn info_of(d: Seq<u8>, os: u8) -> Result<LinkInfoMessage, ErrorModel> {
    if !crate::utils::fits(d, 0, 2) {
        Err(crate::utils::eof(d, 0, 2))
    } else if d[0] != 0 {
        Err(ErrorModel::Plain(FormatError::InvalidLinkInfoVersion(d[0])))
    } else if d[1] % 2 == 1 && !crate::utils::fits(d, 2, 8) {
        Err(crate::utils::eof(d, 2, 8))
    } else {
        let counted = d[1] % 2 == 1;
        let ordered = d[1] / 2 % 2 == 1;
        let p = if counted {
            8int + 2
        } else {
            2
        };
        match crate::utils::defined_at(d, p, os) {
            Err(e) => Err(e),
            Ok(fractal_heap_address) => match crate::utils::defined_at(d, p + os, os) {
                Err(e) => Err(e),
                Ok(btree_name_index_address) => {
                    let last = if ordered {
                        crate::utils::defined_at(d, p + 2 * os, os)
                    } else {
                        Ok(None)
                    };
                    match last {
                        Err(e) => Err(e),
                        Ok(btree_creation_order_address) => Ok(
                            LinkInfoMessage {
                                max_creation_order: if counted {
                                    Some(crate::bytes::u64_at(d, 2))
                                } else {
                                    None
                                },
                                fractal_heap_address,
                                btree_name_index_address,
                                btree_creation_order_address,
                            },
                        ),
                    }
                },
            },
        }
    }
}

impl LinkInfoMessage {
    /// Parse the message from raw message data.
    ///
    /// Layout: version(1) + flags(1) + [max_creation_order(8)] + fractal_heap_address(os) +
    /// btree_name_index(os) + [btree_creation_order(os)]
    pub fn parse(data: &[u8], offset_size: u8) -> (r: Result<LinkInfoMessage, FormatError>)
        ensures
            crate::error::outcome(r) == info_of(data@, offset_size),
    {
        ensure_len(data, 0, 2)?;
        let version = data[0];
        if version != 0 {
            return Err(FormatError::InvalidLinkInfoVersion(version));
        }
        let flags = data[1];
        let mut pos: usize = 2;
        let max_creation_order: Option<u64> = if flags % 2 == 1 {
            ensure_len(data, pos, 8)?;
            let v = get_u64(data, pos);
            pos += 8;
            Some(v)
        } else {
            None
        };
        let os: usize = offset_size as usize;
        let fractal_heap_address = read_defined(data, pos, offset_size)?;
        let btree_name_index_address = read_defined(data, pos + os, offset_size)?;
        let btree_creation_order_address = if flags / 2 % 2 == 1 {
            read_defined(data, pos + 2 * os, offset_size)?
        } else {
            None
        };
        Ok(
            LinkInfoMessage {
                max_creation_order,
                fractal_heap_address,
                btree_name_index_address,
                btree_creation_order_address,
            },
        )
    }
}

} // verus!

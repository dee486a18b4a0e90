//! The closed set of codec errors of the protocol.

use crate::Tag;
use vstd::prelude::*;

verus! {

/// Why a packet or field could not be decoded (or, for `Aborted`, the error
/// code a terminal returned in an Abort frame).
#[derive(Debug, Clone, PartialEq)]
pub enum ZVTError {
    /// The input ended before a required field was complete.
    IncompleteData,
    /// Required tagged fields were never seen; sorted ascending by tag.
    MissingRequiredTags(Vec<Tag>),
    /// An encoded value uses a length form this codec does not implement.
    NonImplemented,
    /// A specific tag was expected but another one was read.
    WrongTag(Tag),
    /// The same tag appeared twice where it is not repeatable.
    DuplicateTag(Tag),
    /// The terminal aborted the dialog with this error code.
    Aborted(u8),
}

pub type ZVTResult<T> = Result<T, ZVTError>;

} // verus!

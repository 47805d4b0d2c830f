//! Errors of the tree.

use crate::coding::{DecodeError, EncodeError};
use vstd::prelude::*;

verus! {

/// Represents errors that can occur in the LSM-tree
#[derive(Debug)]
pub enum Error {
    /// I/O error
    Io(std::io::Error),
    /// Serialization failed
    Encode(EncodeError),
    /// Deserialization failed
    Decode(DecodeError),
    /// A segment that the manifest names is not there
    SegmentNotFound,
    /// A compaction chose segments that another one works on
    CompactionConflict,
    /// Stored data contradicts itself: a handle points to no blob
    Corruption,
}

impl From<DecodeError> for Error {
    fn from(value: DecodeError) -> (r: Self) {
        Error::Decode(value)
    }
}

impl vstd::std_specs::convert::FromSpecImpl<DecodeError> for Error {
    open spec fn obeys_from_spec() -> bool {
        true
    }

    open spec fn from_spec(value: DecodeError) -> Self {
        Error::Decode(value)
    }
}

impl From<EncodeError> for Error {
    fn from(value: EncodeError) -> (r: Self) {
        Error::Encode(value)
    }
}

impl vstd::std_specs::convert::FromSpecImpl<EncodeError> for Error {
    open spec fn obeys_from_spec() -> bool {
        true
    }

    open spec fn from_spec(value: EncodeError) -> Self {
        Error::Encode(value)
    }
}

impl From<std::io::Error> for Error {
    fn from(value: std::io::Error) -> (r: Self) {
        Error::Io(value)
    }
}

impl vstd::std_specs::convert::FromSpecImpl<std::io::Error> for Error {
    open spec fn obeys_from_spec() -> bool {
        true
    }

    open spec fn from_spec(value: std::io::Error) -> Self {
        Error::Io(value)
    }
}

} // verus!

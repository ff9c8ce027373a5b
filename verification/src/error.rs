//! The reasons an operation of the adapter can fail.
use vstd::prelude::*;
use crate::inner_io::{new_io_error, raised_kind, FailureKind};

verus! {

/// Why an operation of the adapter failed.
#[derive(Debug)]
pub enum StreamError {
    /// An inner reader reported this error; it is passed on unchanged.
    Io(std::io::Error),
    /// The lengths of the inner readers add up to more than `u64::MAX`
    /// (reported as `InvalidData`).
    LengthOverflow,
    /// A seek would land past `u64::MAX` (reported as `InvalidData`).
    PositionOverflow,
    /// A seek target lies before byte zero or past `u64::MAX` (reported as
    /// `InvalidInput`).
    OutOfRange,
}

impl StreamError {
    /// The `ErrorKind` under which the error is reported, or `None` for an
    /// inner reader's error, which keeps its own kind.
    pub open spec fn reported_kind(self) -> Option<FailureKind> {
        match self {
            StreamError::Io(_) => None,
            StreamError::LengthOverflow => Some(FailureKind::InvalidData),
            StreamError::PositionOverflow => Some(FailureKind::InvalidData),
            StreamError::OutOfRange => Some(FailureKind::InvalidInput),
        }
    }

    /// Turns the error into the `std::io::Error` that the `Read` and `Seek`
    /// impls return: an inner reader's error unchanged, the others as a new
    /// error of the kind that [`StreamError::reported_kind`] names.
    pub fn into_io_error(self) -> (error: std::io::Error)
        ensures
            self matches StreamError::Io(inner) ==> error == inner,
            !(self is Io) ==> raised_kind(error) == self.reported_kind(),
    {
        match self {
            StreamError::Io(error) => error,
            StreamError::LengthOverflow => new_io_error(
                FailureKind::InvalidData,
                "combined reader length exceeds u64::MAX",
            ),
            StreamError::PositionOverflow => new_io_error(
                FailureKind::InvalidData,
                "seek position exceeds u64::MAX",
            ),
            StreamError::OutOfRange => new_io_error(
                FailureKind::InvalidInput,
                "cannot seek before the start of the combined reader",
            ),
        }
    }
}

} // verus!

//! What can go wrong in the index, and how a failed file operation is reported.
use vstd::prelude::*;

verus! {

/// A failed file operation: whether the file was simply not there, and the
/// system's error code where there is one.
#[derive(Clone, Copy, Debug, PartialEq, Eq, Structural)]
pub struct IoError {
    pub not_found: bool,
    pub code: Option<i32>,
}

/// The errors of the index.
#[derive(Debug, PartialEq, Eq)]
pub enum Error {
    /// The path given for the index is not a directory.
    NotDirectoryError,
    /// A file operation failed.
    IOError(IoError),
    /// The index holds files that were never written out completely.
    PartialWriteError,
    /// There is no such node, block or file.
    NotFoundError,
    /// The index contradicts itself.
    CorruptionError(String),
    /// The block is already there.
    ExistsError,
    /// The index was opened for reading only.
    ReadOnlyError,
}

/// The error with which a failed attempt to open a file is reported.
pub open spec fn spec_open_error(e: IoError) -> Error {
    if e.not_found {
        Error::NotFoundError
    } else {
        Error::IOError(e)
    }
}

/// The error with which a failed attempt to open a file is reported: a file
/// that is not there is `NotFoundError`, anything else is passed on.
pub fn open_error(e: IoError) -> (error: Error)
    ensures
        error == spec_open_error(e),
{
    if e.not_found {
        Error::NotFoundError
    } else {
        Error::IOError(e)
    }
}

/// A failed attempt to open a file is `NotFoundError` exactly if the file was not
/// there, and otherwise hands on what went wrong.
pub proof fn law_open_error_tells_what_is_not_there(e: IoError)
    ensures
        spec_open_error(e) is NotFoundError <==> e.not_found,
        spec_open_error(e) is IOError <==> !e.not_found,
        !e.not_found ==> spec_open_error(e)->IOError_0 == e,
{
}

} // verus!

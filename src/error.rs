//! Errors of the log.

use vstd::prelude::*;

verus! {

/// `std::io::Error`, carried through unchanged where a file operation failed.
#[verifier::external_type_specification]
#[verifier::external_body]
pub struct ExIoError(std::io::Error);

/// What can go wrong with a log.
#[derive(Debug)]
pub enum LogError {
    /// A payload does not match the checksum stored after it.
    BadChecksum,
    /// An index or a range lies outside the log, or a cursor was asked to go back.
    OutOfBounds,
    /// The file underneath failed.
    IoError(std::io::Error),
    /// Another handle holds the log's lock.
    AlreadyLocked,
}

} // verus!

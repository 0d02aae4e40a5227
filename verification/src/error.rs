//! Crate-wide error type.
//!
//! Every fallible operation returns [`Result`]. The variants are
//! coarse-grained on purpose: callers match on the variant to decide
//! whether to retry, to abort or to tell the user, not on the message.

use vstd::prelude::*;

verus! {

/// `std::io::Error`, carried through unopened.
#[verifier::external_type_specification]
#[verifier::external_body]
pub struct ExIoError(std::io::Error);

/// The crate's error type.
#[derive(Debug)]
pub enum Error {
    /// An underlying I/O operation failed.
    Io(std::io::Error),
    /// Data read from disk did not pass an integrity check.
    Corruption(String),
    /// The caller passed an argument that is refused.
    InvalidArgument(String),
    /// The engine has been closed; no further operations are allowed.
    Closed,
}

/// Crate-wide `Result` alias.
pub type Result<T> = std::result::Result<T, Error>;

/// A corruption error with the given message.
pub(crate) fn corruption(message: &str) -> (e: Error)
    ensures
        e matches Error::Corruption(s) && s@ == message@,
{
    Error::Corruption(message.to_owned())
}

/// An invalid-argument error with the given message.
pub(crate) fn invalid_argument(message: &str) -> (e: Error)
    ensures
        e matches Error::InvalidArgument(s) && s@ == message@,
{
    Error::InvalidArgument(message.to_owned())
}

} // verus!

use vstd::prelude::*;

verus! {

/// The ways an operation of the store can fail.
#[derive(Debug, Clone, PartialEq, Eq)]
pub enum Error {
    /// The storage underneath failed; the message describes how.
    Io(String),
    /// Stored bytes do not describe a valid record.
    Corrupt(String),
    /// A request or argument was not acceptable.
    Invalid(String),
}

} // verus!

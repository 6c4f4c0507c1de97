//! The errors that the backend reports.

use vstd::prelude::*;
use vstd::string::StringExecFns;

verus! {

/// Why a change or an operation was refused.
#[derive(Clone, Copy, Debug, PartialEq, Eq, Structural)]
pub enum AutomergeError {
    /// An operation names a container that no operation has made.
    MissingObject,
    /// An operation names a list element that is not in its sequence.
    MissingElement,
    /// A change does not carry the sequence number that follows its actor's last one.
    InvalidSequence,
    /// A change or operation is malformed in another way.
    InvalidChange,
    /// The payload of an operation cannot be read as its action asks.
    EncodingError,
}

impl AutomergeError {
    /// A short description of the error, for messages.
    pub fn describe(&self) -> (s: String)
        ensures
            s@ == match *self {
                AutomergeError::MissingObject => "missing object"@,
                AutomergeError::MissingElement => "missing element"@,
                AutomergeError::InvalidSequence => "invalid sequence number"@,
                AutomergeError::InvalidChange => "invalid change"@,
                AutomergeError::EncodingError => "malformed payload"@,
            },
    {
        match self {
            AutomergeError::MissingObject => String::from_str("missing object"),
            AutomergeError::MissingElement => String::from_str("missing element"),
            AutomergeError::InvalidSequence => String::from_str("invalid sequence number"),
            AutomergeError::InvalidChange => String::from_str("invalid change"),
            AutomergeError::EncodingError => String::from_str("malformed payload"),
        }
    }
}

} // verus!

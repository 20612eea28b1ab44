use vstd::prelude::*;

verus! {

/// Failure modes of subtitle parsing.  Reading a file can add an I/O failure;
/// that variant is constructed by callers that do the reading.
#[derive(Debug, Clone, Copy, PartialEq, Eq, Structural)]
pub enum ParsingError {
    /// No block of the subtitle grammar matched anywhere in the input.
    MalformedSubtitle,
    /// A timestamp did not consist of four numeric fields.
    InvalidTimestamp,
    /// A sequence number did not fit the machine's integer range.
    InvalidNumber,
    /// The underlying file could not be read.
    IoError,
}

impl ParsingError {
    /// A short human-readable description of the failure.
    pub fn message(&self) -> (r: String)
        ensures
            *self is MalformedSubtitle ==> r@ == "Malformed subtitle"@,
            *self is InvalidTimestamp ==> r@ == "Invalid timestamp"@,
            *self is InvalidNumber ==> r@ == "Invalid subtitle number"@,
            *self is IoError ==> r@ == "I/O error"@,
    {
        match self {
            ParsingError::MalformedSubtitle => String::from_str("Malformed subtitle"),
            ParsingError::InvalidTimestamp => String::from_str("Invalid timestamp"),
            ParsingError::InvalidNumber => String::from_str("Invalid subtitle number"),
            ParsingError::IoError => String::from_str("I/O error"),
        }
    }
}

} // verus!

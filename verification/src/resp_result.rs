//! Error taxonomy of the wire codec.

use vstd::prelude::*;

verus! {

/// The signed length read from a bulk-string or array header line.
pub type RESPLength = i64;

/// What can go wrong while a buffer is parsed.
///
/// Every variant is fatal to the parse attempt that raised it; the cursor is
/// left where the scan gave up, as a diagnostic.
#[derive(Debug, PartialEq, Eq, Structural, Clone, Copy)]
pub enum RESPError {
    /// The expected type tag byte was not at the cursor.
    WrongType,
    /// A read would run past the end of the buffer; carries the position at
    /// which the scan gave up.
    OutOfBounds(usize),
    /// A declared length is negative and is not the null sentinel; carries
    /// the offending length.
    IncorrectLength(RESPLength),
    /// A header line did not parse as a decimal integer.
    ParseInt,
    /// Bytes that should have been text were not valid UTF-8.
    FromUtf8,
    /// No parser matches the byte at the cursor.
    Unknown,
}

/// The result of a parsing step.
pub type RESPResult<T> = Result<T, RESPError>;

} // verus!

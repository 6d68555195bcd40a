//! The error kinds shared by the parser, the offset resolver, the encoder
//! and the patch applier. Every operation stops at its first error; callers
//! attach the offending line or token when reporting.

use vstd::prelude::*;

verus! {

/// Why an operation on the dump format failed.
#[derive(Clone, Copy, Debug, PartialEq, Eq, Structural)]
pub enum HexError {
    /// A whitespace-delimited group of hex digits had odd length.
    MalformedOctet,
    /// A character inside a byte pair was not a hex digit.
    InvalidHexDigit,
    /// An offset token was not parseable as signed or unsigned hex.
    InvalidOffset,
    /// A relative offset appeared before any absolute offset.
    NoBasisForRelativeOffset,
    /// Resolving a relative offset left the unsigned 64-bit range.
    OffsetOverflow,
    /// Adding the global offset adjustment left the unsigned 64-bit range.
    OffsetAdjustmentOverflow,
    /// A line carried data before any offset had been established.
    OffsetRequiredBeforeData,
    /// The encoder was configured with zero columns.
    InvalidConfiguration,
}

impl HexError {
    /// A short description, for callers that print errors.
    pub fn describe(&self) -> (r: &'static str)
        ensures
            r@.len() > 0,
    {
        let r: &'static str = match self {
            HexError::MalformedOctet => "incomplete octet in input",
            HexError::InvalidHexDigit => "failed to parse octet",
            HexError::InvalidOffset => "invalid offset",
            HexError::NoBasisForRelativeOffset => {
                "relative offset found before any absolute ones"
            },
            HexError::OffsetOverflow => "relative offset overflown",
            HexError::OffsetAdjustmentOverflow => "failed to add global offset adjustment",
            HexError::OffsetRequiredBeforeData => {
                "offset must be defined before any data in patch"
            },
            HexError::InvalidConfiguration => "columns must be a positive integer",
        };
        proof {
            reveal_strlit("incomplete octet in input");
            reveal_strlit("failed to parse octet");
            reveal_strlit("invalid offset");
            reveal_strlit("relative offset found before any absolute ones");
            reveal_strlit("relative offset overflown");
            reveal_strlit("failed to add global offset adjustment");
            reveal_strlit("offset must be defined before any data in patch");
            reveal_strlit("columns must be a positive integer");
        }
        r
    }
}

} // verus!

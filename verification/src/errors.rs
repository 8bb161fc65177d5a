//! The error taxonomy: grammar violations, truncated input, encoding
//! preconditions, and the transport-level failures an embedding reports.

use vstd::prelude::*;

verus! {

/// Why a buffer failed to decode as one complete frame.
///
/// `IncompleteFrame` and `UnexpectedEndOfBuffer` are recoverable: the bytes
/// seen so far are a prefix of a frame (or empty), so a caller may read more
/// input and retry from the same offset. The remaining variants are terminal
/// for the current frame: the bytes already violate the grammar.
#[derive(Debug, Clone, Copy, PartialEq, Eq, Structural)]
pub enum DecodeError {
    /// The first byte of the frame is not a known type tag.
    UnknownTypeTag,
    /// An integer frame's interior is not an optional `-` followed by
    /// digits denoting a signed 64-bit value, or its terminator is missing.
    MalformedInteger,
    /// A bulk-string length line or an array count line is not such an
    /// integer, declares a value below -1, or the declared length is not
    /// followed by a terminator.
    MalformedLength,
    /// The buffer ended before a type tag or a line terminator was found.
    UnexpectedEndOfBuffer,
    /// A declared length or count exceeds the bytes actually present.
    IncompleteFrame,
}

impl DecodeError {
    /// True exactly for the errors that more input could cure.
    pub open spec fn spec_is_recoverable(self) -> bool {
        self == DecodeError::IncompleteFrame || self == DecodeError::UnexpectedEndOfBuffer
    }

    /// True exactly for the errors that more input could cure: a caller's
    /// receive loop keeps reading on these and aborts on the rest.
    pub fn is_recoverable(&self) -> (r: bool)
        ensures
            r == self.spec_is_recoverable(),
    {
        match self {
            DecodeError::IncompleteFrame => true,
            DecodeError::UnexpectedEndOfBuffer => true,
            _ => false,
        }
    }
}

/// Why a command could not be encoded.
#[derive(Debug, Clone, Copy, PartialEq, Eq, Structural)]
pub enum EncodeError {
    /// The command has no arguments; the wire format has no frame for it.
    EmptyCommand,
}

/// Everything that can go wrong between building a command and obtaining a
/// decoded reply. The transport variants are produced by the embedding that
/// owns the connection; the codec itself produces the other two.
#[derive(Debug, Clone, Copy, PartialEq, Eq, Structural)]
pub enum ClientError {
    /// The connection could not be established or was lost mid-operation.
    Connection,
    /// A read or connect exceeded the configured deadline.
    Timeout,
    /// The command could not be encoded.
    Encode(EncodeError),
    /// The reply bytes could not be decoded.
    Decode(DecodeError),
}

} // verus!

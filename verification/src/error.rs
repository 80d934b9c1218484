//! What can go wrong while a value is decoded.

use vstd::prelude::*;

verus! {

/// Why a byte source could not hand over the bytes it was asked for.
#[derive(Clone, Copy, Debug, PartialEq, Eq, Structural)]
pub enum IoFault {
    /// The source ended before the bytes asked for were there.
    UnexpectedEof,
    /// Any other failure of the source.
    Other,
}

/// The reasons for which decoding a value fails.
///
/// Every error ends the decode call that met it; none is retried or turned
/// into another on its way up through nested values.
#[derive(Clone, Copy, Debug, PartialEq, Eq, Structural)]
pub enum DecodeError {
    /// The byte source failed, or ended in the middle of a value.
    Io(IoFault),
    /// The bytes of a text are not UTF-8. `valid_up_to` is the length of the
    /// longest prefix of them that is.
    String { valid_up_to: usize },
    /// The marker byte is none that the format defines.
    Unknown { marker: u8 },
    /// The marker is defined, but values of its type are not decoded.
    Unsupported { marker: u8 },
    /// An object-end marker stands where a value is expected.
    UnexpectedObjectEnd,
    /// A reference points at a value whose decoding has not finished.
    CircularReference { index: usize },
    /// A reference points past the end of the reference table.
    OutOfRangeReference { index: usize },
    /// A date whose milliseconds are not finite, or are below zero; `millis`
    /// holds the bits of that double.
    InvalidDate { millis: u64 },
    /// A value would stand more deeply than [`crate::MAX_DEPTH`], be it
    /// written out in objects and arrays or brought in by a reference.
    RecursionLimitExceeded,
}

/// The result of a decode step.
pub type DecodeResult<T> = Result<T, DecodeError>;

impl DecodeError {
    /// Whether the error says that the source ended in the middle of a value.
    pub fn is_unexpected_eof(&self) -> (eof: bool)
        ensures
            eof <==> *self == DecodeError::Io(IoFault::UnexpectedEof),
    {
        match self {
            DecodeError::Io(IoFault::UnexpectedEof) => true,
            _ => false,
        }
    }
}

} // verus!

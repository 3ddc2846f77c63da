//! The shared error taxonomy of the two codecs. Every error is detected
//! synchronously during a single `compress` or `decompress` call and carries
//! the context a caller needs to locate the fault in the input stream.

use vstd::prelude::*;

verus! {

/// An error raised by one of the codecs.
///
/// Decoding errors describe malformed input; `EncodableRangeExceeded` is a
/// configuration error of the encoder (a value that does not fit the
/// one-byte wire fields), which the shipped window and lookahead bounds rule
/// out.
#[derive(Debug, Clone, Copy, PartialEq, Eq, Structural)]
pub enum CompressionError {
    /// An RLE stream must consist of whole two-byte records, so its length
    /// must be even; `length` is the offending input length.
    MalformedLength { length: usize },
    /// A token started at input position `offset` but the input ends before
    /// the token's payload is complete.
    TruncatedRecord { offset: usize },
    /// A match token asked to copy from `offset` bytes back while only
    /// `available` bytes of output exist (or `offset` was zero).
    InvalidBackReference { offset: usize, available: usize },
    /// The byte `tag` at input position `offset` is not a recognized token
    /// marker.
    UnrecognizedTag { tag: u8, offset: usize },
    /// An encoder produced a value that does not fit a one-byte wire field.
    EncodableRangeExceeded { value: usize },
}

} // verus!

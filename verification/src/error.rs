//! Why a buffer was refused.

use vstd::prelude::*;

verus! {

/// The ways in which a buffer can fail to be a document.
#[derive(Clone, Copy, Debug, PartialEq, Eq, Structural)]
pub enum DecodeError {
    /// A field reaches past the end of its window or of the buffer.
    Truncated,
    /// The byte after an entry is neither 0 nor 1.
    InvalidContinuation,
    /// A boolean payload is not the single byte 0 or 1.
    InvalidBool,
    /// A null payload is not the single byte 0.
    InvalidNull,
    /// A key or a string payload is not UTF-8.
    InvalidUtf8,
    /// The type tag is not one of the eight known tags.
    UnknownTag,
}

} // verus!

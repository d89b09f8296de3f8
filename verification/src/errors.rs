//! Error kinds surfaced by the codec layers.

use vstd::prelude::*;

verus! {

/// A structural failure in one of the codec stages: text transport,
/// envelope parsing, or payload parsing.
#[derive(Clone, Copy, Debug, PartialEq, Eq, Structural)]
pub enum CodecError {
    /// The envelope's type id byte names no known payload shape.
    UnsupportedTypeId(u8),
    /// The payload bytes are not the canonical serialization of any record.
    MalformedPayload,
    /// The decoded byte buffer is too short to hold an envelope.
    EnvelopeTooShort,
    /// A character of the encoded string lies outside the scheme's
    /// legal packing range.
    InvalidCodepoint,
    /// The final partial group of the encoded string cannot be resolved
    /// to whole bytes.
    TruncatedEncoding,
    /// The record shape may not be combined with the requested scheme.
    UnsupportedSchemeForPayload,
}

} // verus!

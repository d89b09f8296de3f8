//! Codec for short, shareable disaster-alert tokens.
//!
//! A record (an earthquake intensity report or a tsunami forecast) is
//! serialized to a canonical byte payload, authenticated with a keyed tag,
//! wrapped in a fixed envelope layout, and rendered as a compact Unicode
//! string using one of two transport schemes.  Decoding reverses every step
//! and detects the scheme from the first character of the string.

pub mod auth;
pub mod bits;
pub mod codec;
pub mod command;
pub mod envelope;
pub mod errors;
pub mod payload;
pub mod records;
pub mod transport_a;
pub mod transport_b;
pub mod varint;

//! Scheme B: the sparse text transport, one byte pair per codepoint.
//!
//! The codepoint blocks all start at multiples of 256 and the offset inside
//! a block is the first byte of the pair, so the first character's low byte
//! equals the first envelope byte — the fact scheme detection rests on.

use vstd::prelude::*;

use crate::errors::CodecError;

verus! {

/// The Scheme B string of a byte buffer: a function of the bytes alone.
pub uninterp spec fn b65536_of(b: Seq<u8>) -> Seq<char>;

/// Relies on base65536::encode with no wrapping: one codepoint per byte
/// pair, deterministic in the bytes; each codepoint is a block start (a
/// multiple of 256) plus the first byte of its pair, so the first
/// character's scalar value reduced mod 256 is the first byte.
#[verifier::external_body]
pub fn b65536_encode(b: &Vec<u8>) -> (r: String)
    ensures
        r@ == b65536_of(b@),
        r@.len() == (b@.len() + 1) / 2,
        b@.len() > 0 ==> (r@[0] as u32) % 256 == b@[0] as u32,
{
    base65536::encode(b.as_slice(), None::<usize>)
}

/// Relies on base65536::decode in strict mode: it inverts encode, rejecting
/// any codepoint outside the blocks and any text running past a padding
/// codepoint.
#[verifier::external_body]
pub fn b65536_decode(s: &str) -> (r: Result<Vec<u8>, CodecError>)
    ensures
        forall|bs: Seq<u8>| s@ == #[trigger] b65536_of(bs) ==> (r is Ok && r->Ok_0@ == bs),
        r is Err ==> (r == Err::<Vec<u8>, CodecError>(CodecError::InvalidCodepoint)
            || r == Err::<Vec<u8>, CodecError>(CodecError::TruncatedEncoding)),
{
    match base65536::decode(&s, false) {
        Ok(v) => Ok(v),
        Err(base65536::Error::InvalidCodePoint(_, _)) => Err(CodecError::InvalidCodepoint),
        Err(base65536::Error::InvalidLength) => Err(CodecError::TruncatedEncoding),
    }
}

} // verus!

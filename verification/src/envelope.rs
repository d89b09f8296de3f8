//! The envelope: type id, optional scheme marker, tag, body.
//!
//! Scheme A envelopes carry a marker byte (0xFF) after the type id; Scheme B
//! envelopes do not.  On decode the marker's value is consumed but not
//! validated — the scheme was already decided upstream from the text form.

use vstd::prelude::*;

use crate::errors::CodecError;
use crate::records::Scheme;

verus! {

/// The marker byte written after the type id under Scheme A.
pub const SCHEME_A_MARKER: u8 = 0xFF;

/// Bytes of the header before the tag: id plus marker for Scheme A.
pub open spec fn spec_header_len(scheme: Scheme) -> int {
    match scheme {
        Scheme::A => 2,
        Scheme::B => 1,
    }
}

/// The least envelope length a scheme admits: header plus twenty tag bytes.
pub open spec fn spec_min_len(scheme: Scheme) -> int {
    spec_header_len(scheme) + 20
}

/// The envelope bytes for a payload.
pub open spec fn spec_envelope(id: u8, scheme: Scheme, tag: Seq<u8>, body: Seq<u8>) -> Seq<u8> {
    seq![id] + (match scheme {
        Scheme::A => seq![SCHEME_A_MARKER],
        Scheme::B => Seq::<u8>::empty(),
    }) + tag + body
}

/// Where each part of the envelope lies.
pub proof fn lemma_envelope_layout(id: u8, scheme: Scheme, tag: Seq<u8>, body: Seq<u8>)
    requires
        tag.len() == 20,
    ensures
        ({
            let env = spec_envelope(id, scheme, tag, body);
            let h = spec_header_len(scheme);
            &&& env.len() == spec_min_len(scheme) + body.len()
            &&& env[0] == id
            &&& (scheme is A ==> env[1] == SCHEME_A_MARKER)
            &&& env.subrange(h, h + 20) == tag
            &&& env.subrange(h + 20, env.len() as int) == body
        }),
{
    let env = spec_envelope(id, scheme, tag, body);
    let h = spec_header_len(scheme);
    let head = seq![id] + (match scheme {
        Scheme::A => seq![SCHEME_A_MARKER],
        Scheme::B => Seq::<u8>::empty(),
    });
    assert(env.subrange(0, env.len() as int) =~= env);
    crate::payload::lemma_chop(env, 0, head + tag, body);
    crate::payload::lemma_chop(env, 0, head, tag);
    assert(env[0] == (head + tag)[0]);
    if scheme is A {
        assert(env[1] == (head + tag)[1]);
    }
}

/// A parsed envelope: the payload type id, the recorded tag, and the body.
pub struct Envelope {
    pub type_id: u8,
    pub tag: Vec<u8>,
    pub body: Vec<u8>,
}

/// Copies `b[i..j]` out.
pub fn sub_vec(b: &Vec<u8>, i: usize, j: usize) -> (out: Vec<u8>)
    requires
        i <= j <= b@.len(),
    ensures
        out@ == b@.subrange(i as int, j as int),
{
    let mut out: Vec<u8> = Vec::new();
    let mut k: usize = i;
    while k < j
        invariant
            i <= k <= j <= b@.len(),
            out@ == b@.subrange(i as int, k as int),
        decreases j - k,
    {
        out.push(b[k]);
        assert(out@ =~= b@.subrange(i as int, k + 1));
        k += 1;
    }
    out
}

/// Assembles the envelope bytes.
pub fn build_envelope(id: u8, scheme: Scheme, tag: &Vec<u8>, body: &Vec<u8>) -> (out: Vec<u8>)
    requires
        tag@.len() == 20,
    ensures
        out@ == spec_envelope(id, scheme, tag@, body@),
{
    let mut out: Vec<u8> = Vec::new();
    out.push(id);
    match scheme {
        Scheme::A => out.push(SCHEME_A_MARKER),
        Scheme::B => {},
    }
    crate::payload::extend_bytes(&mut out, tag);
    crate::payload::extend_bytes(&mut out, body);
    assert(out@ =~= spec_envelope(id, scheme, tag@, body@));
    out
}

/// Splits envelope bytes for a known scheme.  Fails with `EnvelopeTooShort`
/// exactly when the buffer cannot hold the header and the tag; otherwise the
/// id, tag and body are read off at fixed offsets.
pub fn parse_envelope(b: &Vec<u8>, scheme: Scheme) -> (r: Result<Envelope, CodecError>)
    ensures
        r is Err <==> b@.len() < spec_min_len(scheme),
        r is Err ==> r == Err::<Envelope, CodecError>(CodecError::EnvelopeTooShort),
        r matches Ok(env) ==> ({
            let h = spec_header_len(scheme);
            &&& env.type_id == b@[0]
            &&& env.tag@ == b@.subrange(h, h + 20)
            &&& env.body@ == b@.subrange(h + 20, b@.len() as int)
        }),
{
    let h: usize = match scheme {
        Scheme::A => 2,
        Scheme::B => 1,
    };
    if b.len() < h + 20 {
        return Err(CodecError::EnvelopeTooShort);
    }
    let type_id = b[0];
    let tag = sub_vec(b, h, h + 20);
    let body = sub_vec(b, h + 20, b.len());
    Ok(Envelope { type_id, tag, body })
}

} // verus!

//! The authenticator: a keyed twenty-byte integrity tag over payload bytes.

use vstd::prelude::*;

use hmac::{KeyInit, Mac};

verus! {

/// The keyed digest of a message: what HMAC over the 160-bit hash returns.
/// A function of the key and the message alone.
pub uninterp spec fn hmac_sha1_of(key: Seq<u8>, msg: Seq<u8>) -> Seq<u8>;

/// Relies on hmac::Hmac over sha1::Sha1: any key length is accepted, the
/// digest is twenty bytes, and it depends on the key and message alone.
#[verifier::external_body]
fn hmac_sha1(key: &[u8], msg: &[u8]) -> (r: Vec<u8>)
    ensures
        r@ == hmac_sha1_of(key@, msg@),
        r@.len() == 20,
{
    let mut mac = <hmac::Hmac<sha1::Sha1> as KeyInit>::new_from_slice(key).unwrap();
    mac.update(msg);
    mac.finalize().into_bytes().to_vec()
}

/// Relies on hmac's Mac::verify_slice: a constant-time comparison of the
/// candidate tag against the digest of the key and message.
#[verifier::external_body]
fn hmac_sha1_verify(key: &[u8], msg: &[u8], candidate: &[u8]) -> (r: bool)
    ensures
        r == (candidate@ == hmac_sha1_of(key@, msg@)),
{
    let mut mac = <hmac::Hmac<sha1::Sha1> as KeyInit>::new_from_slice(key).unwrap();
    mac.update(msg);
    mac.verify_slice(candidate).is_ok()
}

/// Computes the twenty-byte authentication tag of `body` under `key`.
/// The empty key is valid (and deliberately weak), not an error.
pub fn tag(key: &[u8], body: &[u8]) -> (r: Vec<u8>)
    ensures
        r@ == hmac_sha1_of(key@, body@),
        r@.len() == 20,
{
    hmac_sha1(key, body)
}

/// What verification means: the candidate is the digest of the body.
pub open spec fn spec_verify(key: Seq<u8>, body: Seq<u8>, candidate: Seq<u8>) -> bool {
    candidate == hmac_sha1_of(key, body)
}

/// Checks `candidate` against the tag of `body` under `key`, in constant
/// time.  True exactly when the candidate equals that tag.
pub fn verify(key: &[u8], body: &[u8], candidate: &[u8]) -> (r: bool)
    ensures
        r == spec_verify(key@, body@, candidate@),
{
    hmac_sha1_verify(key, body, candidate)
}

/// The tag is a pure function: equal keys and bodies give an equal tag.
pub proof fn lemma_tag_deterministic(k1: Seq<u8>, b1: Seq<u8>, k2: Seq<u8>, b2: Seq<u8>)
    requires
        k1 == k2,
        b1 == b2,
    ensures
        hmac_sha1_of(k1, b1) == hmac_sha1_of(k2, b2),
{
}

/// A tampered body fails verification against the original tag whenever its
/// digest differs from the original body's digest.  (That two digests differ
/// for two distinct bodies is a cryptographic property of the hash, outside
/// what can be proved here.)
pub proof fn lemma_tamper_rejected(key: Seq<u8>, body: Seq<u8>, tampered: Seq<u8>)
    requires
        hmac_sha1_of(key, body) != hmac_sha1_of(key, tampered),
    ensures
        !spec_verify(key, tampered, hmac_sha1_of(key, body)),
{
}

} // verus!

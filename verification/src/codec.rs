//! The top of the codec: record to token string and back.
//!
//! Encoding serializes the record, tags the body under the caller's key,
//! wraps both in the envelope, and renders the envelope under the chosen
//! scheme.  Decoding detects the scheme from the first character's scalar
//! value — low byte zero means Scheme B, anything else Scheme A — and runs
//! the inverse chain.  The tag is recovered but deliberately not checked
//! here: callers decide fail-open or fail-closed with [`crate::auth::verify`].

use vstd::prelude::*;
use vstd::string::*;

use crate::auth::{hmac_sha1_of, tag};
use crate::bits::stream;
use crate::envelope::{build_envelope, lemma_envelope_layout, parse_envelope, spec_envelope};
use crate::errors::CodecError;
use crate::payload::{serialize_record, deserialize_record, spec_body};
use crate::records::{scheme_allowed, spec_type_id, Record, RecordView, Scheme};
use crate::transport_a::{a_decode, a_encode, cps, lemma_a_cps_nonempty, lemma_chunk_elems,
    spec_a_cps};
use crate::transport_b::{b65536_decode, b65536_encode, b65536_of};

verus! {

/// The envelope bytes a record produces under a key and scheme.
pub open spec fn spec_env_bytes(rv: RecordView, key: Seq<u8>, scheme: Scheme) -> Seq<u8> {
    spec_envelope(spec_type_id(rv), scheme, hmac_sha1_of(key, spec_body(rv)), spec_body(rv))
}

/// `s` is the token of `rv` under `key` and `scheme`.  (The digest length
/// conjunct records what the authenticator always delivers.)
pub open spec fn is_token(s: Seq<char>, rv: RecordView, key: Seq<u8>, scheme: Scheme) -> bool {
    &&& hmac_sha1_of(key, spec_body(rv)).len() == 20
    &&& match scheme {
        Scheme::A => cps(s) == spec_a_cps(spec_env_bytes(rv, key, scheme)),
        Scheme::B => s == b65536_of(spec_env_bytes(rv, key, scheme)),
    }
}

/// What the decoder's first glance at a string says: low byte zero in the
/// first character's scalar value means Scheme B, any other value Scheme A,
/// and an empty string names no scheme at all.
pub open spec fn spec_detect(s: Seq<char>) -> Option<Scheme> {
    if s.len() == 0 {
        Option::<Scheme>::None
    } else if (s[0] as u32) % 256 == 0 {
        Some(Scheme::B)
    } else {
        Some(Scheme::A)
    }
}

/// Reads the scheme off the first character of an encoded string.
pub fn detect_scheme(s: &str) -> (r: Option<Scheme>)
    ensures
        r == spec_detect(s@),
{
    let n = s.unicode_len();
    if n == 0 {
        return None;
    }
    let c = s.get_char(0);
    if (c as u32) % 256 == 0 {
        Some(Scheme::B)
    } else {
        Some(Scheme::A)
    }
}

/// What a successful decode hands back.
#[derive(Debug)]
pub struct Decoded {
    pub record: Record,
    pub scheme: Scheme,
    pub tag: Vec<u8>,
    pub body: Vec<u8>,
}

/// Encodes a record as a token string.  Succeeds exactly when the record
/// shape admits the scheme; the result is the canonical token, and the
/// scheme can be detected back off it.
pub fn encode(r: &Record, key: &[u8], scheme: Scheme) -> (out: Result<String, CodecError>)
    ensures
        scheme_allowed(r@, scheme) ==> (out matches Ok(s) && is_token(s@, r@, key@, scheme)
            && spec_detect(s@) == Some(scheme)),
        !scheme_allowed(r@, scheme) ==> out == Err::<String, CodecError>(
            CodecError::UnsupportedSchemeForPayload),
{
    match (r, scheme) {
        (Record::Tsunami(_), Scheme::B) => {
            return Err(CodecError::UnsupportedSchemeForPayload);
        },
        _ => {},
    }
    let body = serialize_record(r);
    let tg = tag(key, body.as_slice());
    let id = crate::records::type_id(r);
    let env = build_envelope(id, scheme, &tg, &body);
    proof {
        lemma_envelope_layout(id, scheme, tg@, body@);
    }
    match scheme {
        Scheme::A => {
            let s = a_encode(&env);
            proof {
                lemma_a_cps_nonempty(env@);
                lemma_chunk_elems(stream(env@));
                assert(cps(s@)[0] == (s@[0] as u32));
                assert(cps(s@)[0] % 256 != 0);
            }
            Ok(s)
        },
        Scheme::B => {
            let s = b65536_encode(&env);
            proof {
                assert(env@[0] == 0);
                assert((s@[0] as u32) % 256 == 0);
            }
            Ok(s)
        },
    }
}

/// Decodes a token string.  Complete on canonical tokens: whenever `s` is
/// the token of some record under some key and scheme (and the first
/// character names that scheme), decode returns that record, its scheme,
/// and the recorded tag and body — the round trip closes.  The tag is not
/// checked here; callers verify it explicitly if they choose fail-closed.
#[verifier::rlimit(100)]
pub fn decode(s: &str) -> (r: Result<Decoded, CodecError>)
    ensures
        forall|rv: RecordView, key: Seq<u8>, sch: Scheme| (scheme_allowed(rv, sch)
            && #[trigger] is_token(s@, rv, key, sch) && spec_detect(s@) == Some(sch)) ==> ({
            &&& r matches Ok(d)
            &&& d.record@ == rv
            &&& d.scheme == sch
            &&& d.tag@ == hmac_sha1_of(key, spec_body(rv))
            &&& d.body@ == spec_body(rv)
        }),
        s@.len() == 0 ==> r == Err::<Decoded, CodecError>(CodecError::TruncatedEncoding),
        forall|bs: Seq<u8>| (cps(s@) == #[trigger] spec_a_cps(bs) && spec_detect(s@)
            == Some(Scheme::A) && bs.len() < 22) ==> r == Err::<Decoded, CodecError>(
            CodecError::EnvelopeTooShort),
        forall|bs: Seq<u8>| (s@ == #[trigger] b65536_of(bs) && spec_detect(s@)
            == Some(Scheme::B) && bs.len() < 21) ==> r == Err::<Decoded, CodecError>(
            CodecError::EnvelopeTooShort),
{
    let det = detect_scheme(s);
    if det.is_none() {
        return Err(CodecError::TruncatedEncoding);
    }
    let sch = det.unwrap();
    let bytes = match sch {
        Scheme::A => {
            match a_decode(s) {
                Ok(v) => v,
                Err(e) => {
                    proof {
                        assert forall|rv: RecordView, key: Seq<u8>, sch2: Scheme| (
                            scheme_allowed(rv, sch2) && #[trigger] is_token(s@, rv, key, sch2)
                            && spec_detect(s@) == Some(sch2)) implies false by {}
                        assert forall|bs: Seq<u8>| cps(s@) == #[trigger] spec_a_cps(bs)
                            implies false by {}
                    }
                    return Err(e);
                },
            }
        },
        Scheme::B => {
            match b65536_decode(s) {
                Ok(v) => v,
                Err(e) => {
                    proof {
                        assert forall|rv: RecordView, key: Seq<u8>, sch2: Scheme| (
                            scheme_allowed(rv, sch2) && #[trigger] is_token(s@, rv, key, sch2)
                            && spec_detect(s@) == Some(sch2)) implies false by {}
                        assert forall|bs: Seq<u8>| s@ == #[trigger] b65536_of(bs)
                            implies false by {}
                    }
                    return Err(e);
                },
            }
        },
    };
    proof {
        assert forall|rv: RecordView, key: Seq<u8>, sch2: Scheme| (scheme_allowed(rv, sch2)
            && #[trigger] is_token(s@, rv, key, sch2) && spec_detect(s@) == Some(sch2))
            implies (sch2 == sch && bytes@ == spec_env_bytes(rv, key, sch2)) by {
            lemma_envelope_layout(spec_type_id(rv), sch2, hmac_sha1_of(key, spec_body(rv)),
                spec_body(rv));
        }
        assert forall|bs: Seq<u8>| (cps(s@) == #[trigger] spec_a_cps(bs) && spec_detect(s@)
            == Some(Scheme::A)) implies (sch == Scheme::A && bytes@ == bs) by {}
        assert forall|bs: Seq<u8>| (s@ == #[trigger] b65536_of(bs) && spec_detect(s@)
            == Some(Scheme::B)) implies (sch == Scheme::B && bytes@ == bs) by {}
    }
    let env = match parse_envelope(&bytes, sch) {
        Ok(env) => env,
        Err(e) => {
            proof {
                assert forall|rv: RecordView, key: Seq<u8>, sch2: Scheme| (scheme_allowed(
                    rv, sch2) && #[trigger] is_token(s@, rv, key, sch2) && spec_detect(s@)
                    == Some(sch2)) implies false by {
                    lemma_envelope_layout(spec_type_id(rv), sch2, hmac_sha1_of(key, spec_body(
                        rv)), spec_body(rv));
                }
            }
            return Err(e);
        },
    };
    let rec = match deserialize_record(&env.body, env.type_id) {
        Ok(rec) => rec,
        Err(e) => {
            proof {
                assert forall|rv: RecordView, key: Seq<u8>, sch2: Scheme| (scheme_allowed(
                    rv, sch2) && #[trigger] is_token(s@, rv, key, sch2) && spec_detect(s@)
                    == Some(sch2)) implies false by {
                    lemma_envelope_layout(spec_type_id(rv), sch2, hmac_sha1_of(key, spec_body(
                        rv)), spec_body(rv));
                }
            }
            return Err(e);
        },
    };
    proof {
        assert forall|rv: RecordView, key: Seq<u8>, sch2: Scheme| (scheme_allowed(rv, sch2)
            && #[trigger] is_token(s@, rv, key, sch2) && spec_detect(s@) == Some(sch2))
            implies (rec@ == rv && env.tag@ == hmac_sha1_of(key, spec_body(rv)) && env.body@
            == spec_body(rv)) by {
            lemma_envelope_layout(spec_type_id(rv), sch2, hmac_sha1_of(key, spec_body(rv)),
                spec_body(rv));
        }
    }
    Ok(Decoded { record: rec, scheme: sch, tag: env.tag, body: env.body })
}

/// Scheme detection correctness for the dense scheme: any nonempty buffer's
/// Scheme A rendering is detected as Scheme A.  (For Scheme B the analogous
/// statement holds only when the first byte is zero, which the type id of
/// the one permitted shape guarantees; it is stated as an `ensures` of
/// [`encode`], since it rests on the transport crate's per-call contract.)
pub proof fn lemma_detect_scheme_a(bytes: Seq<u8>)
    requires
        bytes.len() > 0,
    ensures
        forall|s: Seq<char>| cps(s) == #[trigger] spec_a_cps(bytes) ==> spec_detect(s)
            == Some(Scheme::A),
{
    lemma_a_cps_nonempty(bytes);
    lemma_chunk_elems(stream(bytes));
    assert forall|s: Seq<char>| cps(s) == #[trigger] spec_a_cps(bytes) implies spec_detect(s)
        == Some(Scheme::A) by {
        assert(cps(s).len() == spec_a_cps(bytes).len());
        assert(s.len() > 0);
        assert(cps(s)[0] == (s[0] as u32));
        assert(spec_a_cps(bytes)[0] % 256 != 0);
    }
}

} // verus!

//! Scheme A: the dense text transport.
//!
//! Fifteen payload bits ride in each codepoint.  A full group with value `v`
//! maps to codepoint `0xF0000 + (v/128)*256 + 1 + v%128`, so the low byte of
//! every codepoint stays in `1..=128` and is never zero — the fact scheme
//! detection rests on.  A final group of at most seven bits is padded with
//! one-bits to seven and mapped into `0xE0001..=0xE0080`; a final group of
//! eight to fourteen bits is padded with one-bits to fifteen.  The decoder
//! recovers the byte count as the whole bytes of the carried bits, and
//! accepts exactly the canonical images.

use vstd::prelude::*;
use vstd::arithmetic::power2::*;
use vstd::string::*;

use crate::bits::{bits_of_nat, bits_val, lemma_bits_of_val, lemma_bits_val, lemma_ones_val,
    lemma_stream_byte, lemma_stream_len, lemma_stream_push, lemma_val_append, lemma_val_bound,
    ones, push_bits, stream, take_val};
use crate::errors::CodecError;

verus! {

/// Codepoint of a full fifteen-bit group.
pub open spec fn cp15(v: nat) -> u32 {
    (0xF0000 + (v / 128) * 256 + 1 + v % 128) as u32
}

/// Codepoint of a padded final seven-bit group.
pub open spec fn cp7(v: nat) -> u32 {
    (0xE0001 + v) as u32
}

/// Is `c` in the seven-bit repertoire?
pub open spec fn is7(c: u32) -> bool {
    0xE0001 <= c <= 0xE0080
}

/// The fifteen-bit value a codepoint carries.
pub open spec fn dec15(c: u32) -> nat {
    (((c as int - 0xF0000) / 256) * 128 + (c as int % 256 - 1)) as nat
}

/// Pads a short group with one-bits up to width `w`.
pub open spec fn pad1(bits: Seq<bool>, w: nat) -> Seq<bool> {
    bits + ones((w - bits.len()) as nat)
}

/// The codepoints that carry a bit sequence.
pub open spec fn chunk_cps(bits: Seq<bool>) -> Seq<u32>
    decreases bits.len(),
{
    if bits.len() == 0 {
        Seq::<u32>::empty()
    } else if bits.len() >= 15 {
        seq![cp15(bits_val(bits.take(15)))] + chunk_cps(bits.skip(15))
    } else if bits.len() <= 7 {
        seq![cp7(bits_val(pad1(bits, 7)))]
    } else {
        seq![cp15(bits_val(pad1(bits, 15)))]
    }
}

/// The canonical Scheme A codepoints of a byte buffer.
pub open spec fn spec_a_cps(bytes: Seq<u8>) -> Seq<u32> {
    chunk_cps(stream(bytes))
}

/// The codepoint values of a string.
pub open spec fn cps(s: Seq<char>) -> Seq<u32> {
    Seq::new(s.len(), |i: int| s[i] as u32)
}

/// The bits a codepoint carries back out.
pub open spec fn chunk_bits(c: u32) -> Seq<bool> {
    if is7(c) {
        bits_of_nat((c - 0xE0001) as nat, 7)
    } else {
        bits_of_nat(dec15(c), 15)
    }
}

/// The bits a codepoint sequence carries back out.
pub open spec fn unchunk(cs: Seq<u32>) -> Seq<bool>
    decreases cs.len(),
{
    if cs.len() == 0 {
        Seq::<bool>::empty()
    } else {
        chunk_bits(cs[0]) + unchunk(cs.skip(1))
    }
}

/// The one-bits the encoder appends after the payload bits.
pub open spec fn a_pad(bits: Seq<bool>) -> Seq<bool> {
    let r = bits.len() % 15;
    if r == 0 {
        Seq::<bool>::empty()
    } else if r <= 7 {
        ones((7 - r) as nat)
    } else {
        ones((15 - r) as nat)
    }
}

/// Arithmetic shape of a full group's codepoint.
proof fn lemma_cp15_facts(v: nat)
    requires
        v < 32768,
    ensures
        0xF0000 < cp15(v) < 0x100000,
        cp15(v) % 256 == 1 + v % 128,
        dec15(cp15(v)) == v,
        !is7(cp15(v)),
{
    let hi = v / 128;
    let lo = v % 128;
    assert(hi < 256 && lo < 128 && v == hi * 128 + lo) by (nonlinear_arith)
        requires
            v < 32768,
            hi == v / 128,
            lo == v % 128,
    {}
    let c = cp15(v) as int;
    assert(c == 0xF0000 + hi * 256 + 1 + lo) by (nonlinear_arith)
        requires
            hi < 256 && lo < 128,
            c == (0xF0000 + (v / 128) * 256 + 1 + v % 128) as u32,
            hi == v / 128,
            lo == v % 128,
    {}
    assert(c % 256 == 1 + lo && (c - 0xF0000) / 256 == hi) by (nonlinear_arith)
        requires
            c == 0xF0000 + hi * 256 + 1 + lo,
            hi < 256,
            lo < 128,
    {}
    assert(dec15(cp15(v)) == hi * 128 + lo);
}

/// Arithmetic shape of a padded final group's codepoint.
proof fn lemma_cp7_facts(v: nat)
    requires
        v < 128,
    ensures
        is7(cp7(v)),
        cp7(v) % 256 == 1 + v,
        (cp7(v) - 0xE0001) as nat == v,
        cp7(v) % 256 != 0,
{
    let c = cp7(v) as int;
    assert(c == 0xE0001 + v);
    assert(c == 0xE00 * 256 + 1 + v);
    assert(c % 256 == 1 + v) by (nonlinear_arith)
        requires
            c == 0xE00 * 256 + 1 + v,
            v < 128,
    {}
}

/// Every Scheme A codepoint has a nonzero low byte, and each one is a
/// well-formed group: full groups everywhere, with only the final codepoint
/// possibly drawn from the seven-bit repertoire.
pub proof fn lemma_chunk_elems(bits: Seq<bool>)
    ensures
        forall|j: int| 0 <= j < chunk_cps(bits).len() ==> #[trigger] chunk_cps(bits)[j] % 256
            != 0,
        forall|j: int| 0 <= j < chunk_cps(bits).len() ==> ((exists|v: nat| v < 32768
            && chunk_cps(bits)[j] == cp15(v)) || (j == chunk_cps(bits).len() - 1
            && exists|v: nat| v < 128 && #[trigger] chunk_cps(bits)[j] == cp7(v))),
    decreases bits.len(),
{
    let cs = chunk_cps(bits);
    if bits.len() == 0 {
    } else if bits.len() >= 15 {
        let v = bits_val(bits.take(15));
        assert(bits.take(15).len() == 15);
        lemma_val_bound(bits.take(15));
        assert(pow2(15) == 32768) by {
            lemma2_to64();
        }
        lemma_cp15_facts(v);
        lemma_chunk_elems(bits.skip(15));
        assert forall|j: int| 0 <= j < cs.len() implies #[trigger] cs[j] % 256 != 0 by {
            if j > 0 {
                assert(cs[j] == chunk_cps(bits.skip(15))[j - 1]);
            }
        }
        assert forall|j: int| 0 <= j < cs.len() implies ((exists|v2: nat| v2 < 32768
            && cs[j] == cp15(v2)) || (j == cs.len() - 1 && exists|v2: nat| v2 < 128
            && #[trigger] cs[j] == cp7(v2))) by {
            if j == 0 {
                assert(cs[0] == cp15(v) && v < 32768);
            } else {
                assert(cs[j] == chunk_cps(bits.skip(15))[j - 1]);
            }
        }
    } else if bits.len() <= 7 {
        let p = pad1(bits, 7);
        assert(p.len() == 7);
        lemma_val_bound(p);
        assert(pow2(7) == 128) by {
            lemma2_to64();
        }
        lemma_cp7_facts(bits_val(p));
    } else {
        let p = pad1(bits, 15);
        assert(p.len() == 15);
        lemma_val_bound(p);
        assert(pow2(15) == 32768) by {
            lemma2_to64();
        }
        lemma_cp15_facts(bits_val(p));
    }
}

/// Decoding the codepoints of `bits` gives back `bits` followed by its pad.
pub proof fn lemma_unchunk_chunk(bits: Seq<bool>)
    ensures
        unchunk(chunk_cps(bits)) == bits + a_pad(bits),
        a_pad(bits).len() < 8,
    decreases bits.len(),
{
    let cs = chunk_cps(bits);
    if bits.len() == 0 {
        assert(unchunk(cs) =~= bits + a_pad(bits));
    } else if bits.len() >= 15 {
        let head = bits.take(15);
        let v = bits_val(head);
        lemma_val_bound(head);
        assert(pow2(15) == 32768) by {
            lemma2_to64();
        }
        lemma_cp15_facts(v);
        lemma_bits_of_val(head);
        assert(chunk_bits(cp15(v)) == head);
        lemma_unchunk_chunk(bits.skip(15));
        assert(cs.skip(1) =~= chunk_cps(bits.skip(15)));
        assert(unchunk(cs) == head + unchunk(chunk_cps(bits.skip(15))));
        assert(bits.skip(15).len() % 15 == bits.len() % 15);
        assert(a_pad(bits.skip(15)) == a_pad(bits));
        assert(unchunk(cs) =~= bits + a_pad(bits));
    } else if bits.len() <= 7 {
        let p = pad1(bits, 7);
        assert(p.len() == 7);
        lemma_val_bound(p);
        assert(pow2(7) == 128) by {
            lemma2_to64();
        }
        lemma_cp7_facts(bits_val(p));
        lemma_bits_of_val(p);
        assert(chunk_bits(cp7(bits_val(p))) == p);
        assert(cs[0] == cp7(bits_val(p)));
        assert(cs.skip(1) =~= Seq::<u32>::empty());
        assert(unchunk(cs) == chunk_bits(cs[0]) + unchunk(cs.skip(1)));
        assert(unchunk(cs) =~= p);
        assert(bits.len() % 15 == bits.len());
        assert(p =~= bits + a_pad(bits));
    } else {
        let p = pad1(bits, 15);
        assert(p.len() == 15);
        lemma_val_bound(p);
        assert(pow2(15) == 32768) by {
            lemma2_to64();
        }
        lemma_cp15_facts(bits_val(p));
        lemma_bits_of_val(p);
        assert(chunk_bits(cp15(bits_val(p))) == p);
        assert(cs[0] == cp15(bits_val(p)));
        assert(cs.skip(1) =~= Seq::<u32>::empty());
        assert(unchunk(cs) == chunk_bits(cs[0]) + unchunk(cs.skip(1)));
        assert(unchunk(cs) =~= p);
        assert(bits.len() % 15 == bits.len());
        assert(p =~= bits + a_pad(bits));
    }
}

/// Appending one codepoint extends the carried bits by its group.
pub proof fn lemma_unchunk_push(cs: Seq<u32>, c: u32)
    ensures
        unchunk(cs.push(c)) == unchunk(cs) + chunk_bits(c),
    decreases cs.len(),
{
    if cs.len() == 0 {
        assert(cs.push(c).skip(1) =~= Seq::<u32>::empty());
        assert(cs.push(c)[0] == c);
        assert(unchunk(cs.push(c)) == chunk_bits(c) + unchunk(cs.push(c).skip(1)));
        assert(unchunk(cs.push(c)) =~= unchunk(cs) + chunk_bits(c));
    } else {
        lemma_unchunk_push(cs.skip(1), c);
        assert(cs.push(c).skip(1) =~= cs.skip(1).push(c));
        assert(cs.push(c)[0] == cs[0]);
        assert(unchunk(cs.push(c)) == chunk_bits(cs[0]) + unchunk(cs.skip(1).push(c)));
        assert(unchunk(cs.push(c)) =~= unchunk(cs) + chunk_bits(c));
    }
}

/// A nonempty buffer has a nonempty encoding, and conversely.
pub proof fn lemma_a_cps_nonempty(bytes: Seq<u8>)
    ensures
        spec_a_cps(bytes).len() > 0 <==> bytes.len() > 0,
{
    lemma_stream_len(bytes);
    if bytes.len() > 0 {
        assert(stream(bytes).len() > 0);
        assert(chunk_cps(stream(bytes)).len() > 0);
    } else {
        assert(stream(bytes) =~= Seq::<bool>::empty());
    }
}


/// Relies on char::from_u32: on a value that is no surrogate and at most
/// 0x10FFFF it returns the character with exactly that scalar value.
#[verifier::external_body]
fn char_of(v: u32) -> (c: char)
    requires
        0xE000 <= v <= 0x10FFFF,
    ensures
        c as u32 == v,
{
    char::from_u32(v).unwrap()
}

/// Relies on String::push: appends exactly one character.
#[verifier::external_body]
pub(crate) fn push_char(s: &mut String, c: char)
    ensures
        final(s)@ == old(s)@.push(c),
{
    s.push(c);
}

/// Computes a small power of two.
fn pow2_small(k: usize) -> (r: u32)
    requires
        k <= 15,
    ensures
        r as nat == pow2(k as nat),
{
    proof {
        lemma2_to64();
    }
    let mut r: u32 = 1;
    let mut j: usize = 0;
    while j < k
        invariant
            j <= k <= 15,
            r as nat == pow2(j as nat),
            pow2(15) == 32768,
        decreases k - j,
    {
        proof {
            lemma_pow2_unfold((j + 1) as nat);
            if j + 1 < 15 {
                lemma_pow2_strictly_increases((j + 1) as nat, 15);
            }
        }
        r = r * 2;
        j += 1;
    }
    r
}

/// Renders a byte buffer as a Scheme A string: exactly the canonical
/// codepoints of its bit stream.
pub fn a_encode(bytes: &Vec<u8>) -> (s: String)
    ensures
        cps(s@) == spec_a_cps(bytes@),
        s@.len() == spec_a_cps(bytes@).len(),
{
    let mut bits: Vec<bool> = Vec::new();
    let mut i: usize = 0;
    while i < bytes.len()
        invariant
            i <= bytes@.len(),
            bits@ == stream(bytes@.take(i as int)),
        decreases bytes@.len() - i,
    {
        proof {
            lemma2_to64();
        }
        push_bits(&mut bits, bytes[i] as u32, 8);
        proof {
            assert(bytes@.take(i + 1) =~= bytes@.take(i as int).push(bytes@[i as int]));
            lemma_stream_push(bytes@.take(i as int), bytes@[i as int]);
        }
        i += 1;
    }
    proof {
        assert(bytes@.take(bytes@.len() as int) =~= bytes@);
    }
    let mut out = String::new();
    let mut idx: usize = 0;
    proof {
        assert(cps(out@) =~= Seq::<u32>::empty());
        assert(bits@.skip(0) =~= bits@);
        assert(cps(out@) + chunk_cps(bits@.skip(0)) =~= chunk_cps(bits@));
    }
    while idx < bits.len() && bits.len() - idx >= 15
        invariant
            idx <= bits@.len(),
            bits@ == stream(bytes@),
            cps(out@) + chunk_cps(bits@.skip(idx as int)) == chunk_cps(bits@),
        decreases bits@.len() - idx,
    {
        let v = take_val(&bits, idx, idx + 15);
        proof {
            lemma2_to64();
        }
        let hi = v / 128;
        let lo = v % 128;
        let cpv: u32 = 0xF0000 + hi * 256 + 1 + lo;
        let c = char_of(cpv);
        let ghost old_out = out@;
        push_char(&mut out, c);
        proof {
            assert(cpv == cp15(v as nat));
            assert(bits@.skip(idx as int).take(15) =~= bits@.subrange(idx as int, idx + 15));
            assert(bits@.skip(idx as int).skip(15) =~= bits@.skip(idx + 15));
            assert(bits@.skip(idx as int).len() >= 15);
            assert(chunk_cps(bits@.skip(idx as int)) == seq![cp15(bits_val(bits@.skip(
                idx as int).take(15)))] + chunk_cps(bits@.skip(idx + 15)));
            assert(cps(out@) =~= cps(old_out).push(c as u32));
            assert(cps(out@) + chunk_cps(bits@.skip(idx + 15)) =~= chunk_cps(bits@));
        }
        idx += 15;
    }
    let rem = bits.len() - idx;
    if rem > 0 {
        let v = take_val(&bits, idx, bits.len());
        proof {
            lemma2_to64();
            assert(bits@.subrange(idx as int, bits@.len() as int) =~= bits@.skip(idx as int));
            lemma_val_append(bits@.skip(idx as int), ones((7 - rem) as nat));
            lemma_val_append(bits@.skip(idx as int), ones((15 - rem) as nat));
            lemma_ones_val((7 - rem) as nat);
            lemma_ones_val((15 - rem) as nat);
        }
        let ghost old_out = out@;
        if rem <= 7 {
            let pw = pow2_small(7 - rem);
            proof {
                lemma_pow2_adds(rem as nat, (7 - rem) as nat);
                assert((v as nat) * (pw as nat) + (pw as nat - 1) < 128) by (nonlinear_arith)
                    requires
                        (v as nat) < pow2(rem as nat),
                        (pw as nat) == pow2((7 - rem) as nat),
                        pow2(rem as nat) * pow2((7 - rem) as nat) == 128,
                {}
            }
            let pv = v * pw + (pw - 1);
            let c = char_of(0xE0001 + pv);
            push_char(&mut out, c);
            proof {
                assert(pv as nat == bits_val(pad1(bits@.skip(idx as int), 7)));
                assert(c as u32 == cp7(pv as nat));
                assert(chunk_cps(bits@.skip(idx as int)) == seq![cp7(bits_val(pad1(bits@.skip(
                    idx as int), 7)))]);
                assert(cps(out@) =~= cps(old_out).push(c as u32));
                assert(cps(out@) =~= chunk_cps(bits@));
            }
        } else {
            let pw = pow2_small(15 - rem);
            proof {
                lemma_pow2_adds(rem as nat, (15 - rem) as nat);
                assert((v as nat) * (pw as nat) + (pw as nat - 1) < 32768) by (nonlinear_arith)
                    requires
                        (v as nat) < pow2(rem as nat),
                        (pw as nat) == pow2((15 - rem) as nat),
                        pow2(rem as nat) * pow2((15 - rem) as nat) == 32768,
                {}
            }
            let pv = v * pw + (pw - 1);
            let hi = pv / 128;
            let lo = pv % 128;
            let cpv: u32 = 0xF0000 + hi * 256 + 1 + lo;
            let c = char_of(cpv);
            push_char(&mut out, c);
            proof {
                assert(pv as nat == bits_val(pad1(bits@.skip(idx as int), 15)));
                assert(cpv == cp15(pv as nat));
                assert(chunk_cps(bits@.skip(idx as int)) == seq![cp15(bits_val(pad1(bits@.skip(
                    idx as int), 15)))]);
                assert(cps(out@) =~= cps(old_out).push(c as u32));
                assert(cps(out@) =~= chunk_cps(bits@));
            }
        }
    } else {
        proof {
            assert(bits@.skip(idx as int) =~= Seq::<bool>::empty());
            assert(chunk_cps(bits@.skip(idx as int)) =~= Seq::<u32>::empty());
            assert(cps(out@) =~= chunk_cps(bits@));
        }
    }
    out
}


/// Decodes a Scheme A string.  Exact: the canonical image of a buffer
/// decodes to that buffer, the result (if any) always re-encodes to the
/// input, and anything else is rejected.
#[verifier::rlimit(100)]
pub fn a_decode(s: &str) -> (r: Result<Vec<u8>, CodecError>)
    ensures
        r matches Ok(v) ==> cps(s@) == spec_a_cps(v@),
        forall|bs: Seq<u8>| cps(s@) == #[trigger] spec_a_cps(bs) ==> (r matches Ok(v)
            && v@ == bs),
        r is Err ==> (r == Err::<Vec<u8>, CodecError>(CodecError::InvalidCodepoint)
            || r == Err::<Vec<u8>, CodecError>(CodecError::TruncatedEncoding)),
{
    let n = s.unicode_len();
    let mut cv: Vec<u32> = Vec::new();
    let mut i: usize = 0;
    proof {
        assert(cv@ =~= cps(s@).take(0));
    }
    while i < n
        invariant
            i <= n,
            n == s@.len(),
            cv@ == cps(s@).take(i as int),
        decreases n - i,
    {
        let c = s.get_char(i);
        cv.push(c as u32);
        proof {
            assert(cv@ =~= cps(s@).take(i + 1));
        }
        i += 1;
    }
    proof {
        assert(cps(s@).take(n as int) =~= cps(s@));
    }
    let mut bits: Vec<bool> = Vec::new();
    let mut j: usize = 0;
    proof {
        assert(bits@ =~= unchunk(cv@.take(0)));
    }
    while j < n
        invariant
            j <= n,
            n == s@.len() == cv@.len(),
            cv@ == cps(s@),
            bits@ == unchunk(cv@.take(j as int)),
        decreases n - j,
    {
        let cp = cv[j];
        proof {
            lemma2_to64();
        }
        let mut bad = false;
        if cp >= 0xF0000 && cp < 0x100000 {
            let off = cp - 0xF0000;
            let hi = off / 256;
            let low = off % 256;
            if low >= 1 && low <= 128 {
                let v = hi * 128 + (low - 1);
                proof {
                    assert(cp as int % 256 == low as int && (cp as int - 0xF0000) / 256
                        == hi as int) by (nonlinear_arith)
                        requires
                            cp == 0xF0000 + off,
                            hi == off / 256,
                            low == off % 256,
                            off < 0x10000,
                    {}
                    assert(dec15(cp) == v as nat);
                    assert(!is7(cp));
                    assert(chunk_bits(cp) == bits_of_nat(v as nat, 15));
                    assert(hi <= 255);
                }
                push_bits(&mut bits, v, 15);
                proof {
                    lemma_unchunk_push(cv@.take(j as int), cp);
                    assert(cv@.take(j + 1) =~= cv@.take(j as int).push(cp));
                    assert(bits@ =~= unchunk(cv@.take(j + 1)));
                }
            } else {
                bad = true;
            }
        } else if cp >= 0xE0001 && cp <= 0xE0080 && j == n - 1 {
            let v = cp - 0xE0001;
            proof {
                assert(is7(cp));
                assert(chunk_bits(cp) == bits_of_nat(v as nat, 7));
            }
            push_bits(&mut bits, v, 7);
            proof {
                lemma_unchunk_push(cv@.take(j as int), cp);
                assert(cv@.take(j + 1) =~= cv@.take(j as int).push(cp));
                assert(bits@ =~= unchunk(cv@.take(j + 1)));
            }
        } else {
            bad = true;
        }
        if bad {
            proof {
                assert forall|bs: Seq<u8>| cps(s@) == #[trigger] spec_a_cps(bs) implies
                    false by {
                    lemma_chunk_elems(stream(bs));
                    assert(chunk_cps(stream(bs))[j as int] == cp);
                    if exists|v2: nat| v2 < 32768 && chunk_cps(stream(bs))[j as int]
                        == cp15(v2) {
                        let v2 = choose|v2: nat| v2 < 32768 && chunk_cps(stream(
                            bs))[j as int] == cp15(v2);
                        lemma_cp15_facts(v2);
                    } else {
                        let v2 = choose|v2: nat| v2 < 128 && chunk_cps(stream(
                            bs))[j as int] == cp7(v2);
                        lemma_cp7_facts(v2);
                    }
                }
            }
            return Err(CodecError::InvalidCodepoint);
        }
        j += 1;
    }
    proof {
        assert(cv@.take(n as int) =~= cv@);
    }
    let total = bits.len();
    let nb = total / 8;
    let mut out: Vec<u8> = Vec::new();
    let mut k: usize = 0;
    while k < nb
        invariant
            k <= nb,
            nb == bits@.len() / 8,
            bits@.len() <= usize::MAX,
            bits@ == unchunk(cps(s@)),
            out@.len() == k,
            forall|m: int| 0 <= m < k ==> (#[trigger] out@[m]) as nat == bits_val(
                bits@.subrange(8 * m, 8 * m + 8)),
        decreases nb - k,
    {
        proof {
            lemma2_to64();
            assert(8 * ((k + 1) as int) <= 8 * (nb as int));
            assert(8 * (nb as int) <= bits@.len() as int) by (nonlinear_arith)
                requires
                    nb == bits@.len() / 8,
            {}
            assert(8 * (k as int) + 8 <= bits@.len());
        }
        let bv = take_val(&bits, 8 * k, 8 * k + 8);
        out.push(bv as u8);
        k += 1;
    }
    let enc = a_encode(&out);
    let en = enc.unicode_len();
    proof {
        assert forall|bs: Seq<u8>| cps(s@) == #[trigger] spec_a_cps(bs) implies out@ == bs by {
            lemma_unchunk_chunk(stream(bs));
            lemma_stream_len(bs);
            assert(bits@ == stream(bs) + a_pad(stream(bs)));
            let padl = a_pad(stream(bs)).len();
            assert(bits@.len() == 8 * bs.len() + padl && padl < 8);
            assert((8 * bs.len() + padl) / 8 == bs.len()) by (nonlinear_arith)
                requires
                    padl < 8,
            {}
            assert(out@.len() == bs.len());
            assert forall|m: int| 0 <= m < bs.len() implies out@[m] == bs[m] by {
                assert(out@[m] as nat == bits_val(bits@.subrange(8 * m, 8 * m + 8)));
                lemma_stream_byte(bs, m);
                assert(bits@.subrange(8 * m, 8 * m + 8) =~= stream(bs).subrange(8 * m, 8 * m
                    + 8));
                lemma_bits_val(bs[m] as nat, 8);
                lemma2_to64();
                assert(bits_val(bits_of_nat(bs[m] as nat, 8)) == bs[m] as nat);
            }
            assert(out@ =~= bs);
        }
        assert forall|bs: Seq<u8>| cps(s@) == #[trigger] spec_a_cps(bs) implies en as int
            == n as int by {
            assert(out@ == bs);
            assert(cps(enc@) == spec_a_cps(out@));
            assert(n as int == cps(s@).len());
        }
    }
    if en != n {
        proof {
            assert forall|bs: Seq<u8>| cps(s@) == #[trigger] spec_a_cps(bs) implies false by {
                assert(en as int == n as int);
            }
        }
        return Err(CodecError::TruncatedEncoding);
    }
    let mut m: usize = 0;
    while m < n
        invariant
            m <= n,
            n == s@.len() == cv@.len() == enc@.len(),
            cv@ == cps(s@),
            cps(enc@) == spec_a_cps(out@),
            forall|bs: Seq<u8>| cps(s@) == #[trigger] spec_a_cps(bs) ==> out@ == bs,
            forall|m2: int| 0 <= m2 < m ==> cps(enc@)[m2] == cps(s@)[m2],
        decreases n - m,
    {
        let c2 = enc.get_char(m);
        if c2 as u32 != cv[m] {
            proof {
                assert forall|bs: Seq<u8>| cps(s@) == #[trigger] spec_a_cps(bs) implies
                    false by {
                    assert(out@ == bs);
                    assert(cps(enc@)[m as int] == cps(s@)[m as int]);
                }
            }
            return Err(CodecError::TruncatedEncoding);
        }
        m += 1;
    }
    proof {
        assert(cps(enc@) =~= cps(s@));
    }
    Ok(out)
}

} // verus!

//! A bit-sequence model of byte buffers, for the dense transport scheme.
//!
//! Bytes are read most-significant bit first; `stream` is the whole buffer
//! as one bit sequence, and `bits_val` turns a bit sequence back into the
//! number it spells.

use vstd::prelude::*;
use vstd::arithmetic::power2::*;

verus! {

/// The low `w` bits of `n`, most significant first.
pub open spec fn bits_of_nat(n: nat, w: nat) -> Seq<bool>
    decreases w,
{
    if w == 0 {
        Seq::<bool>::empty()
    } else {
        bits_of_nat(n / 2, (w - 1) as nat).push(n % 2 == 1)
    }
}

/// The number spelled by a bit sequence, most significant first.
pub open spec fn bits_val(s: Seq<bool>) -> nat
    decreases s.len(),
{
    if s.len() == 0 {
        0
    } else {
        bits_val(s.drop_last()) * 2 + (if s.last() {
            1nat
        } else {
            0nat
        })
    }
}

/// `k` one-bits.
pub open spec fn ones(k: nat) -> Seq<bool> {
    Seq::new(k, |i: int| true)
}

/// A byte buffer as one bit sequence.
pub open spec fn stream(bytes: Seq<u8>) -> Seq<bool>
    decreases bytes.len(),
{
    if bytes.len() == 0 {
        Seq::<bool>::empty()
    } else {
        bits_of_nat(bytes[0] as nat, 8) + stream(bytes.skip(1))
    }
}

pub proof fn lemma_bits_len(n: nat, w: nat)
    ensures
        bits_of_nat(n, w).len() == w,
    decreases w,
{
    if w > 0 {
        lemma_bits_len(n / 2, (w - 1) as nat);
    }
}

pub proof fn lemma_bits_val(n: nat, w: nat)
    ensures
        bits_val(bits_of_nat(n, w)) == n % pow2(w),
    decreases w,
{
    if w == 0 {
        assert(pow2(0) == 1) by {
            lemma2_to64();
        }
        assert(n % 1 == 0);
    } else {
        lemma_bits_val(n / 2, (w - 1) as nat);
        lemma_bits_len(n / 2, (w - 1) as nat);
        let b = bits_of_nat(n / 2, (w - 1) as nat);
        assert(bits_of_nat(n, w).drop_last() =~= b);
        assert(bits_val(bits_of_nat(n, w)) == bits_val(b) * 2 + n % 2);
        lemma_pow2_unfold(w);
        lemma_pow2_pos((w - 1) as nat);
        let p = pow2((w - 1) as nat);
        assert((n / 2 % p) * 2 + n % 2 == n % (p * 2)) by (nonlinear_arith)
            requires
                p > 0,
        {}
    }
}

pub proof fn lemma_val_bound(s: Seq<bool>)
    ensures
        bits_val(s) < pow2(s.len()),
    decreases s.len(),
{
    if s.len() == 0 {
        lemma2_to64();
    } else {
        lemma_val_bound(s.drop_last());
        lemma_pow2_unfold(s.len());
    }
}

pub proof fn lemma_bits_of_val(s: Seq<bool>)
    ensures
        bits_of_nat(bits_val(s), s.len()) == s,
    decreases s.len(),
{
    if s.len() == 0 {
        assert(bits_of_nat(bits_val(s), s.len()) =~= s);
    } else {
        lemma_bits_of_val(s.drop_last());
        let v = bits_val(s);
        let low: nat = if s.last() {
            1nat
        } else {
            0nat
        };
        assert(v == bits_val(s.drop_last()) * 2 + low);
        assert(v / 2 == bits_val(s.drop_last()) && v % 2 == low) by (nonlinear_arith)
            requires
                v == bits_val(s.drop_last()) * 2 + low,
                low < 2,
        {}
        assert(bits_of_nat(v, s.len()) == bits_of_nat(v / 2, (s.len() - 1) as nat).push(
            v % 2 == 1));
        assert(bits_of_nat(v, s.len()) =~= s);
    }
}

pub proof fn lemma_val_append(a: Seq<bool>, b: Seq<bool>)
    ensures
        bits_val(a + b) == bits_val(a) * pow2(b.len()) + bits_val(b),
    decreases b.len(),
{
    if b.len() == 0 {
        assert(a + b =~= a);
        lemma2_to64();
    } else {
        lemma_val_append(a, b.drop_last());
        assert((a + b).drop_last() =~= a + b.drop_last());
        assert((a + b).last() == b.last());
        lemma_pow2_unfold(b.len());
        let p = pow2((b.len() - 1) as nat);
        let low: nat = if b.last() {
            1nat
        } else {
            0nat
        };
        assert(bits_val(a + b) == (bits_val(a) * p + bits_val(b.drop_last())) * 2 + low);
        assert((bits_val(a) * p + bits_val(b.drop_last())) * 2 + low == bits_val(a) * (p * 2)
            + (bits_val(b.drop_last()) * 2 + low)) by (nonlinear_arith);
        assert(bits_val(b) == bits_val(b.drop_last()) * 2 + low);
        assert(pow2(b.len()) == p * 2);
        assert(bits_val(a + b) == bits_val(a) * pow2(b.len()) + bits_val(b));
    }
}

pub proof fn lemma_ones_val(k: nat)
    ensures
        bits_val(ones(k)) == pow2(k) - 1,
    decreases k,
{
    if k == 0 {
        lemma2_to64();
    } else {
        lemma_ones_val((k - 1) as nat);
        assert(ones(k).drop_last() =~= ones((k - 1) as nat));
        assert(ones(k).last());
        lemma_pow2_unfold(k);
        lemma_pow2_pos((k - 1) as nat);
    }
}

pub proof fn lemma_stream_len(bytes: Seq<u8>)
    ensures
        stream(bytes).len() == 8 * bytes.len(),
    decreases bytes.len(),
{
    if bytes.len() > 0 {
        lemma_bits_len(bytes[0] as nat, 8);
        lemma_stream_len(bytes.skip(1));
    }
}

/// Appending one byte extends the stream by that byte's bits.
pub proof fn lemma_stream_push(bytes: Seq<u8>, x: u8)
    ensures
        stream(bytes.push(x)) == stream(bytes) + bits_of_nat(x as nat, 8),
    decreases bytes.len(),
{
    if bytes.len() == 0 {
        assert(bytes.push(x).skip(1) =~= Seq::<u8>::empty());
        assert(bytes.push(x)[0] == x);
        assert(bytes.push(x).len() == 1);
        assert(stream(bytes.push(x)) == bits_of_nat(x as nat, 8) + stream(
            bytes.push(x).skip(1)));
        assert(stream(Seq::<u8>::empty()) =~= Seq::<bool>::empty());
        assert(stream(bytes.push(x)) =~= stream(bytes) + bits_of_nat(x as nat, 8));
    } else {
        lemma_stream_push(bytes.skip(1), x);
        assert(bytes.push(x).skip(1) =~= bytes.skip(1).push(x));
        assert(bytes.push(x)[0] == bytes[0]);
        assert(stream(bytes.push(x)) == bits_of_nat(bytes[0] as nat, 8) + stream(
            bytes.skip(1).push(x)));
        assert(stream(bytes.push(x)) =~= stream(bytes) + bits_of_nat(x as nat, 8));
    }
}

/// The stream splits at any byte boundary.
pub proof fn lemma_stream_decomp(bytes: Seq<u8>, i: int)
    requires
        0 <= i <= bytes.len(),
    ensures
        stream(bytes) == stream(bytes.take(i)) + stream(bytes.skip(i)),
    decreases i,
{
    if i == 0 {
        assert(bytes.take(0) =~= Seq::<u8>::empty());
        assert(bytes.skip(0) =~= bytes);
        assert(stream(bytes) =~= stream(bytes.take(0)) + stream(bytes.skip(0)));
    } else {
        lemma_stream_decomp(bytes.skip(1), i - 1);
        assert(bytes.skip(1).take(i - 1) =~= bytes.take(i).skip(1));
        assert(bytes.skip(1).skip(i - 1) =~= bytes.skip(i));
        assert(bytes.take(i)[0] == bytes[0]);
        assert(bytes.take(i).len() == i);
        assert(stream(bytes.take(i)) == bits_of_nat(bytes[0] as nat, 8) + stream(
            bytes.take(i).skip(1)));
        assert(stream(bytes) =~= stream(bytes.take(i)) + stream(bytes.skip(i)));
    }
}

/// The bits at one byte's slot spell that byte.
pub proof fn lemma_stream_byte(bytes: Seq<u8>, k: int)
    requires
        0 <= k < bytes.len(),
    ensures
        stream(bytes).subrange(8 * k, 8 * k + 8) == bits_of_nat(bytes[k] as nat, 8),
{
    lemma_stream_decomp(bytes, k);
    lemma_stream_len(bytes.take(k));
    lemma_stream_len(bytes);
    let rest = stream(bytes.skip(k));
    assert(bytes.skip(k).len() > 0);
    assert(bytes.skip(k)[0] == bytes[k]);
    assert(rest == bits_of_nat(bytes[k] as nat, 8) + stream(bytes.skip(k).skip(1)));
    lemma_bits_len(bytes[k] as nat, 8);
    assert(stream(bytes).subrange(8 * k, 8 * k + 8) =~= bits_of_nat(bytes[k] as nat, 8)) by {
        lemma_stream_len(bytes.skip(k));
        assert forall|i: int| 0 <= i < 8 implies stream(bytes).subrange(8 * k, 8 * k + 8)[i]
            == bits_of_nat(bytes[k] as nat, 8)[i] by {
            assert(stream(bytes)[8 * k + i] == rest[i]);
            assert(rest[i] == bits_of_nat(bytes[k] as nat, 8)[i]);
        }
    }
}

/// Appends the low `w` bits of `v`, most significant first.
pub fn push_bits(out: &mut Vec<bool>, v: u32, w: usize)
    requires
        w <= 31,
        (v as nat) < pow2(w as nat),
    ensures
        final(out)@ == old(out)@ + bits_of_nat(v as nat, w as nat),
    decreases w,
{
    if w == 0 {
        assert(out@ =~= old(out)@ + bits_of_nat(v as nat, 0));
    } else {
        proof {
            lemma_pow2_unfold(w as nat);
            lemma_pow2_pos((w - 1) as nat);
        }
        push_bits(out, v / 2, w - 1);
        out.push(v % 2 == 1);
        assert((v as nat) / 2 == (v / 2) as nat);
        assert((v as nat) % 2 == 1 <==> v % 2 == 1);
        assert(out@ =~= old(out)@ + bits_of_nat(v as nat, w as nat));
    }
}

/// Reads the number spelled by `bits[from..to]`.
pub fn take_val(bits: &Vec<bool>, from: usize, to: usize) -> (r: u32)
    requires
        from <= to <= bits@.len(),
        to - from <= 16,
    ensures
        r as nat == bits_val(bits@.subrange(from as int, to as int)),
        (r as nat) < pow2((to - from) as nat),
{
    proof {
        lemma2_to64();
    }
    let mut r: u32 = 0;
    let mut i: usize = from;
    while i < to
        invariant
            from <= i <= to <= bits@.len(),
            to - from <= 16,
            r as nat == bits_val(bits@.subrange(from as int, i as int)),
            (r as nat) < pow2((i - from) as nat),
            pow2(16) == 65536,
        decreases to - i,
    {
        proof {
            lemma_pow2_unfold((i + 1 - from) as nat);
            lemma_pow2_pos((i - from) as nat);
            if i + 1 - from < 16 {
                lemma_pow2_strictly_increases((i + 1 - from) as nat, 16);
            }
            assert(pow2((i + 1 - from) as nat) <= pow2(16));
        }
        let bit: u32 = if bits[i] {
            1
        } else {
            0
        };
        proof {
            assert(bits@.subrange(from as int, i + 1).drop_last() =~= bits@.subrange(
                from as int, i as int));
            assert(bits@.subrange(from as int, i + 1).last() == bits@[i as int]);
        }
        r = r * 2 + bit;
        i += 1;
    }
    proof {
        lemma_val_bound(bits@.subrange(from as int, to as int));
    }
    r
}

} // verus!

//! Canonical base-128 varints: the scalar building block of the payload wire
//! format.  Values are written least-significant group first; every byte but
//! the last has its high bit set, and the encoding is minimal.

use vstd::prelude::*;

verus! {

/// The canonical varint encoding of `n`.
pub open spec fn spec_varint(n: u64) -> Seq<u8>
    decreases n,
{
    if n < 128 {
        seq![n as u8]
    } else {
        seq![((n % 128) + 128) as u8] + spec_varint(n / 128)
    }
}

/// Appends the canonical varint encoding of `n` to `out`.
pub fn write_varint(out: &mut Vec<u8>, n: u64)
    ensures
        final(out)@ == old(out)@ + spec_varint(n),
    decreases n,
{
    if n < 128 {
        out.push(n as u8);
        assert(out@ =~= old(out)@ + spec_varint(n));
    } else {
        let ghost mid = out@;
        out.push((n % 128 + 128) as u8);
        write_varint(out, n / 128);
        assert(out@ =~= old(out)@ + spec_varint(n));
    }
}

/// Reads one varint starting at `pos`.  On canonical input the result is
/// exact: whenever the bytes at `pos` begin with `spec_varint(n)`, the parse
/// returns `n` and stops right after it.
pub fn parse_varint(b: &Vec<u8>, pos: usize) -> (r: Option<(u64, usize)>)
    requires
        pos <= b@.len(),
    ensures
        r matches Some(np) ==> pos < np.1 <= b@.len(),
        forall|n: u64|
            {
                &&& pos + #[trigger] spec_varint(n).len() <= b@.len()
                &&& b@.subrange(pos as int, pos + spec_varint(n).len()) == spec_varint(n)
            } ==> r == Some((n, (pos + spec_varint(n).len()) as usize)),
    decreases b@.len() - pos,
{
    if pos == b.len() {
        return None;
    }
    let byte = b[pos];
    if byte < 128 {
        let r = Some((byte as u64, pos + 1));
        assert forall|n: u64|
            {
                &&& pos + #[trigger] spec_varint(n).len() <= b@.len()
                &&& b@.subrange(pos as int, pos + spec_varint(n).len()) == spec_varint(n)
            } implies r == Some((n, (pos + spec_varint(n).len()) as usize)) by {
            if n < 128 {
                assert(b@[pos as int] == spec_varint(n)[0]);
            } else {
                assert(b@[pos as int] == spec_varint(n)[0]);
                assert(spec_varint(n)[0] == ((n % 128) + 128) as u8);
            }
        }
        r
    } else {
        let rec = parse_varint(b, pos + 1);
        let r: Option<(u64, usize)> = match rec {
            None => None,
            Some((v, p2)) => {
                let low = (byte - 128) as u64;
                if v <= (u64::MAX - low) / 128 {
                    Some((v * 128 + low, p2))
                } else {
                    None
                }
            },
        };
        assert forall|n: u64|
            {
                &&& pos + #[trigger] spec_varint(n).len() <= b@.len()
                &&& b@.subrange(pos as int, pos + spec_varint(n).len()) == spec_varint(n)
            } implies r == Some((n, (pos + spec_varint(n).len()) as usize)) by {
            assert(b@[pos as int] == spec_varint(n)[0]);
            if n < 128 {
                assert(spec_varint(n)[0] == n as u8);
            } else {
                let tail = spec_varint(n / 128);
                assert(spec_varint(n) == seq![((n % 128) + 128) as u8] + tail);
                assert(b@.subrange(pos + 1, pos + 1 + tail.len()) =~= tail) by {
                    assert forall|i: int| 0 <= i < tail.len() implies
                        b@.subrange(pos + 1, pos + 1 + tail.len())[i] == tail[i] by {
                        assert(b@.subrange(pos as int, pos + spec_varint(n).len())[i + 1]
                            == tail[i]);
                    }
                }
                assert(rec == Some((n / 128, (pos + 1 + tail.len()) as usize)));
                assert(byte == ((n % 128) + 128) as u8);
                assert((byte - 128) as u64 == n % 128);
                assert(n / 128 * 128 + n % 128 == n) by (nonlinear_arith);
                assert(n / 128 <= (u64::MAX - n % 128) / 128) by (nonlinear_arith)
                    requires n / 128 * 128 + n % 128 == n && n % 128 < 128;
            }
        }
        r
    }
}

} // verus!

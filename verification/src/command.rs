//! The command reconstructor: renders the invocation that would re-produce
//! a decoded record.
//!
//! The authentication key is never recoverable from a token, so the
//! rendered invocation carries no key option (the empty key is the
//! default).  The time is rendered in epoch seconds and the epicenter in
//! fixed-point decimal degrees, one digit after the point.

use vstd::prelude::*;
use vstd::string::*;

use crate::records::{Record, RecordView, Scheme};
use crate::transport_a::push_char;

verus! {

/// The character of one decimal digit.
pub open spec fn spec_digit(d: nat) -> char {
    if d == 0 {
        '0'
    } else if d == 1 {
        '1'
    } else if d == 2 {
        '2'
    } else if d == 3 {
        '3'
    } else if d == 4 {
        '4'
    } else if d == 5 {
        '5'
    } else if d == 6 {
        '6'
    } else if d == 7 {
        '7'
    } else if d == 8 {
        '8'
    } else {
        '9'
    }
}

/// The decimal rendering of a number.
pub open spec fn spec_digits(n: nat) -> Seq<char>
    decreases n,
{
    if n < 10 {
        seq![spec_digit(n)]
    } else {
        spec_digits(n / 10).push(spec_digit(n % 10))
    }
}

/// The fixed-point rendering of a tenths value: sign, whole part, one
/// fractional digit.
pub open spec fn spec_fixed1(v: i32) -> Seq<char> {
    let a = if v < 0 {
        -(v as int)
    } else {
        v as int
    };
    let sign: Seq<char> = if v < 0 {
        seq!['-']
    } else {
        Seq::<char>::empty()
    };
    sign + spec_digits((a / 10) as nat) + seq!['.'] + seq![spec_digit((a % 10) as nat)]
}

/// The options that one code list contributes.
pub open spec fn spec_bucket_args(flag: Seq<char>, codes: Seq<u32>) -> Seq<char>
    decreases codes.len(),
{
    if codes.len() == 0 {
        Seq::<char>::empty()
    } else {
        flag + spec_digits(codes[0] as nat) + spec_bucket_args(flag, codes.skip(1))
    }
}

/// The options an optional epicenter contributes.
pub open spec fn spec_epi_args(e: Option<crate::records::Epicenter>) -> Seq<char> {
    match e {
        Some(e) => " --epicenter "@ + spec_fixed1(e.lat_x10) + seq![','] + spec_fixed1(
            e.lon_x10),
        None => Seq::<char>::empty(),
    }
}

/// The word naming a scheme on the command line.
pub open spec fn spec_scheme_word(scheme: Scheme) -> Seq<char> {
    match scheme {
        Scheme::A => "scheme-a"@,
        Scheme::B => "scheme-b"@,
    }
}

/// The full reconstructed invocation of a record under a scheme.
pub open spec fn spec_command(rv: RecordView, scheme: Scheme) -> Seq<char> {
    match rv {
        RecordView::Quake(q) => "encode "@ + spec_scheme_word(scheme) + " v0 --time "@
            + spec_digits(q.time as nat) + spec_epi_args(q.epicenter) + spec_bucket_args(
            " --one "@, q.one) + spec_bucket_args(" --two "@, q.two) + spec_bucket_args(
            " --three "@, q.three) + spec_bucket_args(" --four "@, q.four) + spec_bucket_args(
            " --five-minus "@, q.five_minus) + spec_bucket_args(" --five-plus "@, q.five_plus)
            + spec_bucket_args(" --six-minus "@, q.six_minus) + spec_bucket_args(
            " --six-plus "@, q.six_plus) + spec_bucket_args(" --seven "@, q.seven),
        RecordView::Tsunami(t) => "encode "@ + spec_scheme_word(scheme) + " tsunami --time "@
            + spec_digits(t.time as nat) + spec_epi_args(t.epicenter) + spec_bucket_args(
            " --forecast "@, t.forecast) + spec_bucket_args(" --advisory "@, t.advisory)
            + spec_bucket_args(" --warning "@, t.warning) + spec_bucket_args(
            " --major-warning "@, t.major_warning),
    }
}

/// One decimal digit as a character.
fn digit_char(d: u64) -> (c: char)
    requires
        d < 10,
    ensures
        c == spec_digit(d as nat),
{
    if d == 0 {
        '0'
    } else if d == 1 {
        '1'
    } else if d == 2 {
        '2'
    } else if d == 3 {
        '3'
    } else if d == 4 {
        '4'
    } else if d == 5 {
        '5'
    } else if d == 6 {
        '6'
    } else if d == 7 {
        '7'
    } else if d == 8 {
        '8'
    } else {
        '9'
    }
}

/// Appends the decimal rendering of `n`.
fn push_digits(out: &mut String, n: u64)
    ensures
        final(out)@ == old(out)@ + spec_digits(n as nat),
    decreases n,
{
    if n < 10 {
        push_char(out, digit_char(n));
        assert(out@ =~= old(out)@ + spec_digits(n as nat));
    } else {
        push_digits(out, n / 10);
        push_char(out, digit_char(n % 10));
        assert(out@ =~= old(out)@ + spec_digits(n as nat));
    }
}

/// Appends the fixed-point rendering of a tenths value.
fn push_fixed1(out: &mut String, v: i32)
    ensures
        final(out)@ == old(out)@ + spec_fixed1(v),
{
    let a: u64 = if v < 0 {
        (-(v as i64)) as u64
    } else {
        v as u64
    };
    if v < 0 {
        push_char(out, '-');
    }
    push_digits(out, a / 10);
    push_char(out, '.');
    push_char(out, digit_char(a % 10));
    assert(out@ =~= old(out)@ + spec_fixed1(v));
}

/// Appends one code list's options, starting from element `i`.
fn push_bucket_args_from(out: &mut String, flag: &str, codes: &Vec<u32>, i: usize)
    requires
        i <= codes@.len(),
    ensures
        final(out)@ == old(out)@ + spec_bucket_args(flag@, codes@.skip(i as int)),
    decreases codes@.len() - i,
{
    if i == codes.len() {
        assert(codes@.skip(i as int) =~= Seq::<u32>::empty());
        assert(out@ =~= old(out)@ + spec_bucket_args(flag@, codes@.skip(i as int)));
    } else {
        out.append(flag);
        push_digits(out, codes[i] as u64);
        push_bucket_args_from(out, flag, codes, i + 1);
        assert(codes@.skip(i as int).skip(1) =~= codes@.skip(i + 1));
        assert(codes@.skip(i as int)[0] == codes@[i as int]);
        assert(out@ =~= old(out)@ + spec_bucket_args(flag@, codes@.skip(i as int)));
    }
}

/// Appends one code list's options.
fn push_bucket_args(out: &mut String, flag: &str, codes: &Vec<u32>)
    ensures
        final(out)@ == old(out)@ + spec_bucket_args(flag@, codes@),
{
    push_bucket_args_from(out, flag, codes, 0);
    assert(codes@.skip(0) =~= codes@);
}

/// Appends an optional epicenter's option.
fn push_epi_args(out: &mut String, e: &Option<crate::records::Epicenter>)
    ensures
        final(out)@ == old(out)@ + spec_epi_args(*e),
{
    match e {
        Some(e) => {
            out.append(" --epicenter ");
            push_fixed1(out, e.lat_x10);
            push_char(out, ',');
            push_fixed1(out, e.lon_x10);
            assert(out@ =~= old(out)@ + spec_epi_args(Some(*e)));
        },
        None => {},
    }
}

/// Renders the invocation that would re-produce `r` under `scheme`.  The
/// key is not recoverable and is left at its empty default; each named
/// bucket is rendered from its own field.
#[verifier::rlimit(60)]
pub fn render_command(r: &Record, scheme: Scheme) -> (out: String)
    ensures
        out@ == spec_command(r@, scheme),
{
    let mut out = String::new();
    out.append("encode ");
    match scheme {
        Scheme::A => out.append("scheme-a"),
        Scheme::B => out.append("scheme-b"),
    }
    match r {
        Record::Quake(q) => {
            out.append(" v0 --time ");
            push_digits(&mut out, q.time);
            push_epi_args(&mut out, &q.epicenter);
            push_bucket_args(&mut out, " --one ", &q.one);
            push_bucket_args(&mut out, " --two ", &q.two);
            push_bucket_args(&mut out, " --three ", &q.three);
            push_bucket_args(&mut out, " --four ", &q.four);
            push_bucket_args(&mut out, " --five-minus ", &q.five_minus);
            push_bucket_args(&mut out, " --five-plus ", &q.five_plus);
            push_bucket_args(&mut out, " --six-minus ", &q.six_minus);
            push_bucket_args(&mut out, " --six-plus ", &q.six_plus);
            push_bucket_args(&mut out, " --seven ", &q.seven);
            assert(out@ =~= spec_command(r@, scheme));
        },
        Record::Tsunami(t) => {
            out.append(" tsunami --time ");
            push_digits(&mut out, t.time);
            push_epi_args(&mut out, &t.epicenter);
            push_bucket_args(&mut out, " --forecast ", &t.forecast);
            push_bucket_args(&mut out, " --advisory ", &t.advisory);
            push_bucket_args(&mut out, " --warning ", &t.warning);
            push_bucket_args(&mut out, " --major-warning ", &t.major_warning);
            assert(out@ =~= spec_command(r@, scheme));
        },
    }
    out
}

} // verus!

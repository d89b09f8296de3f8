//! Canonical binary serialization of the payload records, and its exact
//! inverse.
//!
//! The wire form follows a protobuf-style field layout, fixed here as the
//! canonical grammar: a mandatory time field (`0x08`, varint), an optional
//! epicenter submessage (`0x12`, length-delimited, holding two offset-binary
//! coordinates), and one non-packed repeated field per code bucket in
//! strictly increasing field order.  Empty buckets are omitted, so an empty
//! bucket and an absent one are the same bytes.  `deserialize` accepts
//! exactly the canonical images: it re-serializes its candidate and compares,
//! so `deserialize(b) == Ok(r)` holds if and only if `b == serialize(r)`.

use vstd::prelude::*;

use crate::errors::CodecError;
use crate::records::spec_type_id;
use crate::records::{Epicenter, QuakeRecord, QuakeView, Record, RecordView, TsunamiRecord,
    TsunamiView};
use crate::varint::{parse_varint, spec_varint, write_varint};

verus! {

pub const TAG_TIME: u8 = 8;
pub const TAG_EPICENTER: u8 = 18;

/// A fixed-point coordinate, shifted into the unsigned range.
pub open spec fn offs(x: i32) -> u64 {
    (x + 0x8000_0000) as u64
}

/// Body of the epicenter submessage.
pub open spec fn spec_epi_body(e: Epicenter) -> Seq<u8> {
    seq![8u8] + spec_varint(offs(e.lat_x10)) + seq![16u8] + spec_varint(offs(e.lon_x10))
}

/// The length-delimited epicenter field.
pub open spec fn spec_epi_field(e: Epicenter) -> Seq<u8> {
    seq![TAG_EPICENTER] + spec_varint(spec_epi_body(e).len() as u64) + spec_epi_body(e)
}

/// The bytes contributed by an optional epicenter.
pub open spec fn epi_part(e: Option<Epicenter>) -> Seq<u8> {
    match e {
        Some(e) => spec_epi_field(e),
        None => Seq::<u8>::empty(),
    }
}

/// One repeated code field: a tag byte and a varint per element, in order.
pub open spec fn spec_bucket(tag: u8, codes: Seq<u32>) -> Seq<u8>
    decreases codes.len(),
{
    if codes.len() == 0 {
        Seq::<u8>::empty()
    } else {
        seq![tag] + spec_varint(codes[0] as u64) + spec_bucket(tag, codes.skip(1))
    }
}

/// A run of buckets, each a tag paired with its codes.
pub open spec fn spec_buckets(items: Seq<(u8, Seq<u32>)>) -> Seq<u8>
    decreases items.len(),
{
    if items.len() == 0 {
        Seq::<u8>::empty()
    } else {
        spec_bucket(items[0].0, items[0].1) + spec_buckets(items.skip(1))
    }
}

/// Pairs each tag with the code sequence it carries.
pub open spec fn mk_items(tags: Seq<u8>, cs: Seq<Seq<u32>>) -> Seq<(u8, Seq<u32>)> {
    Seq::new(if tags.len() <= cs.len() { tags.len() } else { cs.len() }, |i: int| (tags[i], cs[i]))
}

pub open spec fn quake_items(q: QuakeView) -> Seq<(u8, Seq<u32>)> {
    seq![
        (24u8, q.one),
        (32u8, q.two),
        (40u8, q.three),
        (48u8, q.four),
        (56u8, q.five_minus),
        (64u8, q.five_plus),
        (72u8, q.six_minus),
        (80u8, q.six_plus),
        (88u8, q.seven),
    ]
}

pub open spec fn tsunami_items(t: TsunamiView) -> Seq<(u8, Seq<u32>)> {
    seq![(24u8, t.forecast), (32u8, t.advisory), (40u8, t.warning), (48u8, t.major_warning)]
}

/// Canonical payload bytes of a quake record.
pub open spec fn spec_quake_body(q: QuakeView) -> Seq<u8> {
    seq![TAG_TIME] + spec_varint(q.time) + epi_part(q.epicenter) + spec_buckets(quake_items(q))
}

/// Canonical payload bytes of a tsunami record.
pub open spec fn spec_tsunami_body(t: TsunamiView) -> Seq<u8> {
    seq![TAG_TIME] + spec_varint(t.time) + epi_part(t.epicenter) + spec_buckets(
        tsunami_items(t),
    )
}

/// Canonical payload bytes of any record.
pub open spec fn spec_body(rv: RecordView) -> Seq<u8> {
    match rv {
        RecordView::Quake(q) => spec_quake_body(q),
        RecordView::Tsunami(t) => spec_tsunami_body(t),
    }
}

/// Splitting a known concatenation at its seam.
pub proof fn lemma_chop(b: Seq<u8>, pos: int, first: Seq<u8>, rest: Seq<u8>)
    requires
        0 <= pos,
        pos + first.len() + rest.len() <= b.len(),
        b.subrange(pos, pos + first.len() + rest.len()) == first + rest,
    ensures
        b.subrange(pos, pos + first.len()) == first,
        b.subrange(pos + first.len(), pos + first.len() + rest.len()) == rest,
{
    let whole = b.subrange(pos, pos + first.len() + rest.len());
    assert(b.subrange(pos, pos + first.len()) =~= first) by {
        assert forall|i: int| 0 <= i < first.len() implies
            b.subrange(pos, pos + first.len())[i] == first[i] by {
            assert(whole[i] == (first + rest)[i]);
        }
    }
    assert(b.subrange(pos + first.len(), pos + first.len() + rest.len()) =~= rest) by {
        assert forall|i: int| 0 <= i < rest.len() implies
            b.subrange(pos + first.len(), pos + first.len() + rest.len())[i] == rest[i] by {
            assert(whole[first.len() + i] == (first + rest)[first.len() + i]);
        }
    }
}

/// A nonempty run of buckets whose tags all exceed `t` starts with a byte
/// that exceeds `t`.
proof fn lemma_buckets_first_gt(items: Seq<(u8, Seq<u32>)>, t: u8)
    requires
        forall|i: int| 0 <= i < items.len() ==> #[trigger] items[i].0 > t,
        spec_buckets(items).len() > 0,
    ensures
        spec_buckets(items)[0] > t,
    decreases items.len(),
{
    if items.len() > 0 {
        if spec_bucket(items[0].0, items[0].1).len() > 0 {
            assert(items[0].1.len() > 0);
            assert(spec_buckets(items)[0] == items[0].0);
        } else {
            lemma_buckets_first_gt(items.skip(1), t);
            assert(spec_buckets(items) =~= spec_buckets(items.skip(1)));
        }
    }
}

/// Peeling one bucket off a run.
proof fn lemma_buckets_step(items: Seq<(u8, Seq<u32>)>, k: int)
    requires
        0 <= k < items.len(),
    ensures
        spec_buckets(items.skip(k)) == spec_bucket(items[k].0, items[k].1) + spec_buckets(
            items.skip(k + 1)),
{
    assert(items.skip(k).len() > 0);
    assert(items.skip(k)[0] == items[k]);
    assert(items.skip(k).skip(1) =~= items.skip(k + 1));
}

/// Byte-for-byte comparison of two buffers.
pub fn bytes_eq(a: &Vec<u8>, b: &Vec<u8>) -> (r: bool)
    ensures
        r == (a@ == b@),
{
    if a.len() != b.len() {
        assert(a@ != b@) by {
            assert(a@.len() != b@.len());
        }
        return false;
    }
    let mut i: usize = 0;
    while i < a.len()
        invariant
            0 <= i <= a@.len(),
            a@.len() == b@.len(),
            forall|j: int| 0 <= j < i ==> a@[j] == b@[j],
        decreases a@.len() - i,
    {
        if a[i] != b[i] {
            return false;
        }
        i += 1;
    }
    assert(a@ =~= b@);
    true
}

/// Appends a copy of `src` to `out`.
pub fn extend_bytes(out: &mut Vec<u8>, src: &Vec<u8>)
    ensures
        final(out)@ == old(out)@ + src@,
{
    let mut i: usize = 0;
    while i < src.len()
        invariant
            0 <= i <= src@.len(),
            out@ == old(out)@ + src@.subrange(0, i as int),
        decreases src@.len() - i,
    {
        out.push(src[i]);
        assert(out@ =~= old(out)@ + src@.subrange(0, i + 1));
        i += 1;
    }
    assert(out@ =~= old(out)@ + src@);
}

/// Appends the epicenter field.
fn write_epi(out: &mut Vec<u8>, e: &Epicenter)
    ensures
        final(out)@ == old(out)@ + spec_epi_field(*e),
{
    let mut body: Vec<u8> = Vec::new();
    body.push(8u8);
    write_varint(&mut body, ((e.lat_x10 as i64) + 0x8000_0000i64) as u64);
    body.push(16u8);
    write_varint(&mut body, ((e.lon_x10 as i64) + 0x8000_0000i64) as u64);
    assert(body@ =~= spec_epi_body(*e));
    out.push(TAG_EPICENTER);
    write_varint(out, body.len() as u64);
    extend_bytes(out, &body);
    assert(out@ =~= old(out)@ + spec_epi_field(*e));
}

/// Appends one bucket, starting from element `i`.
fn write_bucket_from(out: &mut Vec<u8>, tag: u8, codes: &Vec<u32>, i: usize)
    requires
        i <= codes@.len(),
    ensures
        final(out)@ == old(out)@ + spec_bucket(tag, codes@.skip(i as int)),
    decreases codes@.len() - i,
{
    if i == codes.len() {
        assert(codes@.skip(i as int) =~= Seq::<u32>::empty());
        assert(out@ =~= old(out)@ + spec_bucket(tag, codes@.skip(i as int)));
    } else {
        out.push(tag);
        write_varint(out, codes[i] as u64);
        write_bucket_from(out, tag, codes, i + 1);
        assert(codes@.skip(i as int).skip(1) =~= codes@.skip(i + 1));
        assert(codes@.skip(i as int)[0] == codes@[i as int]);
        assert(out@ =~= old(out)@ + spec_bucket(tag, codes@.skip(i as int)));
    }
}

/// Appends one bucket.
fn write_bucket(out: &mut Vec<u8>, tag: u8, codes: &Vec<u32>)
    ensures
        final(out)@ == old(out)@ + spec_bucket(tag, codes@),
{
    write_bucket_from(out, tag, codes, 0);
    assert(codes@.skip(0) =~= codes@);
}

/// Serializes a quake record to its canonical bytes.
#[verifier::rlimit(60)]
pub fn serialize_quake(q: &QuakeRecord) -> (out: Vec<u8>)
    ensures
        out@ == spec_quake_body(q@),
{
    let mut out: Vec<u8> = Vec::new();
    out.push(TAG_TIME);
    write_varint(&mut out, q.time);
    match &q.epicenter {
        Some(e) => write_epi(&mut out, e),
        None => {},
    }
    let ghost head = out@;
    let ghost items = quake_items(q@);
    let ghost p0 = out@;
    write_bucket(&mut out, 24, &q.one);
    let ghost p1 = out@;
    write_bucket(&mut out, 32, &q.two);
    let ghost p2 = out@;
    write_bucket(&mut out, 40, &q.three);
    let ghost p3 = out@;
    write_bucket(&mut out, 48, &q.four);
    let ghost p4 = out@;
    write_bucket(&mut out, 56, &q.five_minus);
    let ghost p5 = out@;
    write_bucket(&mut out, 64, &q.five_plus);
    let ghost p6 = out@;
    write_bucket(&mut out, 72, &q.six_minus);
    let ghost p7 = out@;
    write_bucket(&mut out, 80, &q.six_plus);
    let ghost p8 = out@;
    write_bucket(&mut out, 88, &q.seven);
    proof {
        assert(items.skip(9) =~= Seq::<(u8, Seq<u32>)>::empty());
        lemma_buckets_step(items, 8);
        lemma_buckets_step(items, 7);
        lemma_buckets_step(items, 6);
        lemma_buckets_step(items, 5);
        lemma_buckets_step(items, 4);
        lemma_buckets_step(items, 3);
        lemma_buckets_step(items, 2);
        lemma_buckets_step(items, 1);
        lemma_buckets_step(items, 0);
        assert(items.skip(0) =~= items);
        assert(out@ =~= p8 + spec_buckets(items.skip(8)));
        assert(out@ =~= p7 + spec_buckets(items.skip(7)));
        assert(out@ =~= p6 + spec_buckets(items.skip(6)));
        assert(out@ =~= p5 + spec_buckets(items.skip(5)));
        assert(out@ =~= p4 + spec_buckets(items.skip(4)));
        assert(out@ =~= p3 + spec_buckets(items.skip(3)));
        assert(out@ =~= p2 + spec_buckets(items.skip(2)));
        assert(out@ =~= p1 + spec_buckets(items.skip(1)));
        assert(out@ =~= p0 + spec_buckets(items));
        assert(head =~= seq![TAG_TIME] + spec_varint(q.time) + epi_part(q.epicenter));
        assert(out@ =~= spec_quake_body(q@));
    }
    out
}

/// Serializes a tsunami record to its canonical bytes.
#[verifier::rlimit(60)]
pub fn serialize_tsunami(t: &TsunamiRecord) -> (out: Vec<u8>)
    ensures
        out@ == spec_tsunami_body(t@),
{
    let mut out: Vec<u8> = Vec::new();
    out.push(TAG_TIME);
    write_varint(&mut out, t.time);
    match &t.epicenter {
        Some(e) => write_epi(&mut out, e),
        None => {},
    }
    let ghost head = out@;
    let ghost items = tsunami_items(t@);
    let ghost p0 = out@;
    write_bucket(&mut out, 24, &t.forecast);
    let ghost p1 = out@;
    write_bucket(&mut out, 32, &t.advisory);
    let ghost p2 = out@;
    write_bucket(&mut out, 40, &t.warning);
    let ghost p3 = out@;
    write_bucket(&mut out, 48, &t.major_warning);
    proof {
        assert(items.skip(4) =~= Seq::<(u8, Seq<u32>)>::empty());
        lemma_buckets_step(items, 3);
        lemma_buckets_step(items, 2);
        lemma_buckets_step(items, 1);
        lemma_buckets_step(items, 0);
        assert(items.skip(0) =~= items);
        assert(out@ =~= p3 + spec_buckets(items.skip(3)));
        assert(out@ =~= p2 + spec_buckets(items.skip(2)));
        assert(out@ =~= p1 + spec_buckets(items.skip(1)));
        assert(out@ =~= p0 + spec_buckets(items));
        assert(head =~= seq![TAG_TIME] + spec_varint(t.time) + epi_part(t.epicenter));
        assert(out@ =~= spec_tsunami_body(t@));
    }
    out
}

/// Serializes any record to its canonical payload bytes.
pub fn serialize_record(r: &Record) -> (out: Vec<u8>)
    ensures
        out@ == spec_body(r@),
{
    match r {
        Record::Quake(q) => serialize_quake(q),
        Record::Tsunami(t) => serialize_tsunami(t),
    }
}


/// How a canonical quake body decomposes into its sections.
proof fn lemma_quake_decomp(b: Seq<u8>, qv: QuakeView)
    requires
        b == spec_quake_body(qv),
    ensures
        ({
            let vt = spec_varint(qv.time);
            let ep = epi_part(qv.epicenter);
            let bu = spec_buckets(quake_items(qv));
            let o1 = 1 + vt.len();
            let o2 = o1 + ep.len();
            &&& b.len() == o2 + bu.len()
            &&& b.len() > 0
            &&& b[0] == TAG_TIME
            &&& b.subrange(1, o1 as int) == vt
            &&& b.subrange(o1 as int, o2 as int) == ep
            &&& b.subrange(o2 as int, b.len() as int) == bu
            &&& (qv.epicenter is None ==> (o1 == b.len() || b[o1 as int] != TAG_EPICENTER))
        }),
{
    let vt = spec_varint(qv.time);
    let ep = epi_part(qv.epicenter);
    let items = quake_items(qv);
    let bu = spec_buckets(items);
    let o1 = 1 + vt.len();
    let o2 = o1 + ep.len();
    assert(b.subrange(0, b.len() as int) =~= b);
    lemma_chop(b, 0, seq![TAG_TIME] + vt + ep, bu);
    lemma_chop(b, 0, seq![TAG_TIME] + vt, ep);
    lemma_chop(b, 0, seq![TAG_TIME], vt);
    assert(b[0] == (seq![TAG_TIME])[0]);
    if qv.epicenter is None && o1 < b.len() {
        assert(ep =~= Seq::<u8>::empty());
        assert(bu.len() > 0);
        assert(b[o1 as int] == bu[0]);
        assert forall|i: int| 0 <= i < items.len() implies #[trigger] items[i].0 > 18u8 by {}
        lemma_buckets_first_gt(items, 18);
    }
}

/// How a canonical tsunami body decomposes into its sections.
proof fn lemma_tsunami_decomp(b: Seq<u8>, tv: TsunamiView)
    requires
        b == spec_tsunami_body(tv),
    ensures
        ({
            let vt = spec_varint(tv.time);
            let ep = epi_part(tv.epicenter);
            let bu = spec_buckets(tsunami_items(tv));
            let o1 = 1 + vt.len();
            let o2 = o1 + ep.len();
            &&& b.len() == o2 + bu.len()
            &&& b.len() > 0
            &&& b[0] == TAG_TIME
            &&& b.subrange(1, o1 as int) == vt
            &&& b.subrange(o1 as int, o2 as int) == ep
            &&& b.subrange(o2 as int, b.len() as int) == bu
            &&& (tv.epicenter is None ==> (o1 == b.len() || b[o1 as int] != TAG_EPICENTER))
        }),
{
    let vt = spec_varint(tv.time);
    let ep = epi_part(tv.epicenter);
    let items = tsunami_items(tv);
    let bu = spec_buckets(items);
    let o1 = 1 + vt.len();
    let o2 = o1 + ep.len();
    assert(b.subrange(0, b.len() as int) =~= b);
    lemma_chop(b, 0, seq![TAG_TIME] + vt + ep, bu);
    lemma_chop(b, 0, seq![TAG_TIME] + vt, ep);
    lemma_chop(b, 0, seq![TAG_TIME], vt);
    assert(b[0] == (seq![TAG_TIME])[0]);
    if tv.epicenter is None && o1 < b.len() {
        assert(ep =~= Seq::<u8>::empty());
        assert(bu.len() > 0);
        assert(b[o1 as int] == bu[0]);
        assert forall|i: int| 0 <= i < items.len() implies #[trigger] items[i].0 > 18u8 by {}
        lemma_buckets_first_gt(items, 18);
    }
}

/// Reads the optional epicenter field at `pos`.  Exact on canonical input:
/// if the bytes at `pos` are the image of `e` (followed, when `e` is absent,
/// by anything but an epicenter tag), the parse returns `e`.
fn parse_opt_epi(b: &Vec<u8>, pos: usize) -> (r: Option<(Option<Epicenter>, usize)>)
    requires
        pos <= b@.len(),
    ensures
        r matches Some(ep) ==> pos <= ep.1 <= b@.len(),
        forall|e: Option<Epicenter>|
            {
                let part = #[trigger] epi_part(e);
                &&& pos + part.len() <= b@.len()
                &&& b@.subrange(pos as int, pos + part.len()) == part
                &&& (e is None ==> (pos == b@.len() || b@[pos as int] != TAG_EPICENTER))
            } ==> r == Some((e, (pos + epi_part(e).len()) as usize)),
{
    if pos == b.len() || b[pos] != TAG_EPICENTER {
        let r = Some((None::<Epicenter>, pos));
        assert forall|e: Option<Epicenter>|
            {
                let part = #[trigger] epi_part(e);
                &&& pos + part.len() <= b@.len()
                &&& b@.subrange(pos as int, pos + part.len()) == part
                &&& (e is None ==> (pos == b@.len() || b@[pos as int] != TAG_EPICENTER))
            } implies r == Some((e, (pos + epi_part(e).len()) as usize)) by {
            if e is Some {
                let part = epi_part(e);
                assert(part[0] == TAG_EPICENTER);
                assert(b@[pos as int] == part[0]);
            }
        }
        return r;
    }
    let r: Option<(Option<Epicenter>, usize)> = parse_epi_present(b, pos);
    assert forall|e: Option<Epicenter>|
        {
            let part = #[trigger] epi_part(e);
            &&& pos + part.len() <= b@.len()
            &&& b@.subrange(pos as int, pos + part.len()) == part
            &&& (e is None ==> (pos == b@.len() || b@[pos as int] != TAG_EPICENTER))
        } implies r == Some((e, (pos + epi_part(e).len()) as usize)) by {
        if e is Some {
        } else {
            assert(b@[pos as int] == TAG_EPICENTER);
        }
    }
    r
}

/// Reads an epicenter field known to start at `pos`.
fn parse_epi_present(b: &Vec<u8>, pos: usize) -> (r: Option<(Option<Epicenter>, usize)>)
    requires
        pos < b@.len(),
        b@[pos as int] == TAG_EPICENTER,
    ensures
        r matches Some(ep) ==> pos <= ep.1 <= b@.len(),
        forall|e0: Epicenter|
            {
                let part = #[trigger] spec_epi_field(e0);
                &&& pos + part.len() <= b@.len()
                &&& b@.subrange(pos as int, pos + part.len()) == part
            } ==> r == Some((Some(e0), (pos + spec_epi_field(e0).len()) as usize)),
{
    let r: Option<(Option<Epicenter>, usize)> = parse_epi_inner(b, pos);
    r
}

/// The working part of the epicenter parse.
#[verifier::rlimit(80)]
fn parse_epi_inner(b: &Vec<u8>, pos: usize) -> (r: Option<(Option<Epicenter>, usize)>)
    requires
        pos < b@.len(),
        b@[pos as int] == TAG_EPICENTER,
    ensures
        r matches Some(ep) ==> pos <= ep.1 <= b@.len(),
        forall|e0: Epicenter|
            {
                let part = #[trigger] spec_epi_field(e0);
                &&& pos + part.len() <= b@.len()
                &&& b@.subrange(pos as int, pos + part.len()) == part
            } ==> r == Some((Some(e0), (pos + spec_epi_field(e0).len()) as usize)),
{
    let nlen = b.len();
    let mut failed = false;
    let mut lat: u64 = 0;
    let mut lon: u64 = 0;
    let mut endpos: usize = 0;
    let mut blen: u64 = 0;
    let mut bstart: usize = 0;
    match parse_varint(b, pos + 1) {
        None => {
            failed = true;
        },
        Some((l, p2)) => {
            blen = l;
            bstart = p2;
            if p2 < b.len() && b[p2] == 8u8 {
                match parse_varint(b, p2 + 1) {
                    None => {
                        failed = true;
                    },
                    Some((vlat, p3)) => {
                        if vlat <= 0xFFFF_FFFFu64 && p3 < b.len() && b[p3] == 16u8 {
                            match parse_varint(b, p3 + 1) {
                                None => {
                                    failed = true;
                                },
                                Some((vlon, p4)) => {
                                    if vlon <= 0xFFFF_FFFFu64 && (p4 - p2) as u64 == l {
                                        lat = vlat;
                                        lon = vlon;
                                        endpos = p4;
                                    } else {
                                        failed = true;
                                    }
                                },
                            }
                        } else {
                            failed = true;
                        }
                    },
                }
            } else {
                failed = true;
            }
        },
    }
    let r: Option<(Option<Epicenter>, usize)> = if failed {
        None
    } else {
        let e = Epicenter {
            lat_x10: ((lat as i64) - 0x8000_0000i64) as i32,
            lon_x10: ((lon as i64) - 0x8000_0000i64) as i32,
        };
        Some((Some(e), endpos))
    };
    assert forall|e0: Epicenter|
        {
            let part = #[trigger] spec_epi_field(e0);
            &&& pos + part.len() <= b@.len()
            &&& b@.subrange(pos as int, pos + part.len()) == part
        } implies r == Some((Some(e0), (pos + spec_epi_field(e0).len()) as usize)) by {
        let part = spec_epi_field(e0);
        let body = spec_epi_body(e0);
        let lv = spec_varint(body.len() as u64);
        let latv = spec_varint(offs(e0.lat_x10));
        let lonv = spec_varint(offs(e0.lon_x10));
        let bsub = b@.subrange(pos as int, pos + part.len());
        lemma_chop(b@, pos as int, seq![TAG_EPICENTER] + lv, body);
        lemma_chop(b@, pos as int, seq![TAG_EPICENTER], lv);
        let q0 = pos + 1 + lv.len();
        lemma_chop(b@, q0, seq![8u8] + latv + seq![16u8], lonv);
        lemma_chop(b@, q0, seq![8u8] + latv, seq![16u8]);
        lemma_chop(b@, q0, seq![8u8], latv);
        assert(b@.subrange(q0, q0 + 1) == seq![8u8]);
        assert(b@[q0] == b@.subrange(q0, q0 + 1)[0]);
        let q1 = q0 + 1 + latv.len();
        assert(b@.subrange(q1, q1 + 1) == seq![16u8]);
        assert(b@[q1] == b@.subrange(q1, q1 + 1)[0]);
        assert(offs(e0.lat_x10) <= 0xFFFF_FFFFu64);
        assert(offs(e0.lon_x10) <= 0xFFFF_FFFFu64);
        assert(((offs(e0.lat_x10) as i64) - 0x8000_0000i64) as i32 == e0.lat_x10);
        assert(((offs(e0.lon_x10) as i64) - 0x8000_0000i64) as i32 == e0.lon_x10);
    }
    r
}


/// Reads one repeated code field at `pos`.  Exact on canonical input: if the
/// bytes at `pos` are the image of `codes` and the byte after them (if any)
/// is not this field's tag, the parse returns exactly `codes`.
fn parse_bucket(b: &Vec<u8>, pos: usize, tag: u8) -> (r: Option<(Vec<u32>, usize)>)
    requires
        pos <= b@.len(),
    ensures
        r matches Some(vp) ==> pos <= vp.1 <= b@.len(),
        forall|codes: Seq<u32>|
            {
                let part = #[trigger] spec_bucket(tag, codes);
                &&& pos + part.len() <= b@.len()
                &&& b@.subrange(pos as int, pos + part.len()) == part
                &&& (pos + part.len() == b@.len() || b@[pos + part.len()] != tag)
            } ==> ({
                &&& r matches Some(vp)
                &&& vp.0@ == codes
                &&& vp.1 == pos + spec_bucket(tag, codes).len()
            }),
    decreases b@.len() - pos,
{
    let nlen = b.len();
    if pos == nlen || b[pos] != tag {
        let r: Option<(Vec<u32>, usize)> = Some((Vec::new(), pos));
        assert forall|codes: Seq<u32>|
            {
                let part = #[trigger] spec_bucket(tag, codes);
                &&& pos + part.len() <= b@.len()
                &&& b@.subrange(pos as int, pos + part.len()) == part
                &&& (pos + part.len() == b@.len() || b@[pos + part.len()] != tag)
            } implies r matches Some(vp) && vp.0@ == codes && vp.1 == pos + spec_bucket(
                tag, codes).len() by {
            let part = spec_bucket(tag, codes);
            if codes.len() > 0 {
                assert(part[0] == tag);
                assert(b@[pos as int] == part[0]);
            } else {
                assert(part.len() == 0);
            }
            assert(r matches Some(vp) && vp.0@ =~= codes && vp.1 == pos + spec_bucket(
                tag, codes).len());
        }
        return r;
    }
    let r: Option<(Vec<u32>, usize)> = match parse_varint(b, pos + 1) {
        None => None,
        Some((v, p2)) => {
            if v > 0xFFFF_FFFFu64 {
                None
            } else {
                match parse_bucket(b, p2, tag) {
                    None => None,
                    Some((mut rest, p3)) => {
                        rest.insert(0, v as u32);
                        Some((rest, p3))
                    },
                }
            }
        },
    };
    assert forall|codes: Seq<u32>|
        {
            let part = #[trigger] spec_bucket(tag, codes);
            &&& pos + part.len() <= b@.len()
            &&& b@.subrange(pos as int, pos + part.len()) == part
            &&& (pos + part.len() == b@.len() || b@[pos + part.len()] != tag)
        } implies r matches Some(vp) && vp.0@ == codes && vp.1 == pos + spec_bucket(
            tag, codes).len() by {
        let part = spec_bucket(tag, codes);
        if codes.len() == 0 {
            assert(b@[pos as int] == tag);
            assert(false);
        } else {
            let cv = spec_varint(codes[0] as u64);
            let tail = spec_bucket(tag, codes.skip(1));
            lemma_chop(b@, pos as int, seq![tag] + cv, tail);
            lemma_chop(b@, pos as int, seq![tag], cv);
            assert(codes[0] as u64 <= 0xFFFF_FFFFu64);
            let p2g = pos + 1 + cv.len();
            assert(b@.subrange(p2g, p2g + tail.len()) == tail);
            assert(p2g + tail.len() == pos + part.len());
            assert(r matches Some(vp) && vp.0@ =~= codes && vp.1 == pos + spec_bucket(
                tag, codes).len());
        }
    }
    r
}

/// Reads the run of buckets tagged `tags[t..]`, which must fill the rest of
/// the buffer.  Exact on canonical input.
fn parse_buckets_from(b: &Vec<u8>, pos: usize, tags: &Vec<u8>, t: usize) -> (r: Option<(
    Vec<Vec<u32>>, usize)>)
    requires
        pos <= b@.len(),
        t <= tags@.len(),
        forall|i: int, j: int| 0 <= i < j < tags@.len() ==> tags@[i] < tags@[j],
    ensures
        forall|cs: Seq<Seq<u32>>|
            {
                let its = #[trigger] mk_items(tags@.skip(t as int), cs);
                &&& cs.len() == tags@.len() - t
                &&& pos + spec_buckets(its).len() == b@.len()
                &&& b@.subrange(pos as int, b@.len() as int) == spec_buckets(its)
            } ==> ({
                &&& r matches Some(vp)
                &&& vp.0@.len() == cs.len()
                &&& forall|i: int| 0 <= i < cs.len() ==> #[trigger] vp.0@[i]@ == cs[i]
                &&& vp.1 == b@.len()
            }),
    decreases tags@.len() - t,
{
    if t == tags.len() {
        let r: Option<(Vec<Vec<u32>>, usize)> = Some((Vec::new(), pos));
        assert forall|cs: Seq<Seq<u32>>|
            {
                let its = #[trigger] mk_items(tags@.skip(t as int), cs);
                &&& cs.len() == tags@.len() - t
                &&& pos + spec_buckets(its).len() == b@.len()
                &&& b@.subrange(pos as int, b@.len() as int) == spec_buckets(its)
            } implies r matches Some(vp) && vp.0@.len() == cs.len() && (forall|i: int|
                0 <= i < cs.len() ==> #[trigger] vp.0@[i]@ == cs[i]) && vp.1 == b@.len() by {
            let its = mk_items(tags@.skip(t as int), cs);
            assert(its.len() == 0);
            assert(pos == b@.len());
        }
        return r;
    }
    let tag = tags[t];
    let r: Option<(Vec<Vec<u32>>, usize)> = match parse_bucket(b, pos, tag) {
        None => None,
        Some((codes, p2)) => {
            match parse_buckets_from(b, p2, tags, t + 1) {
                None => None,
                Some((mut vecs, p3)) => {
                    vecs.insert(0, codes);
                    Some((vecs, p3))
                },
            }
        },
    };
    assert forall|cs: Seq<Seq<u32>>|
        {
            let its = #[trigger] mk_items(tags@.skip(t as int), cs);
            &&& cs.len() == tags@.len() - t
            &&& pos + spec_buckets(its).len() == b@.len()
            &&& b@.subrange(pos as int, b@.len() as int) == spec_buckets(its)
        } implies r matches Some(vp) && vp.0@.len() == cs.len() && (forall|i: int|
            0 <= i < cs.len() ==> #[trigger] vp.0@[i]@ == cs[i]) && vp.1 == b@.len() by {
        let its = mk_items(tags@.skip(t as int), cs);
        assert(its.len() == cs.len() >= 1);
        assert(its[0] == (tags@[t as int], cs[0]));
        let first = spec_bucket(tag, cs[0]);
        let its2 = mk_items(tags@.skip(t + 1), cs.skip(1));
        assert(its.skip(1) =~= its2);
        let restb = spec_buckets(its2);
        assert(spec_buckets(its) == first + restb);
        assert(b@.subrange(pos as int, b@.len() as int).len() == first.len() + restb.len());
        lemma_chop(b@, pos as int, first, restb);
        let p2g = pos + first.len();
        if restb.len() > 0 {
            assert forall|i: int| 0 <= i < its2.len() implies #[trigger] its2[i].0 > tag by {
                assert(its2[i].0 == tags@[t + 1 + i]);
            }
            lemma_buckets_first_gt(its2, tag);
            assert(b@[p2g] == restb[0]);
        }
        assert(p2g == b@.len() || b@[p2g] != tag);
        assert(r matches Some(vp) && vp.0@.len() == cs.len() && (forall|i: int|
            0 <= i < cs.len() ==> #[trigger] vp.0@[i]@ == cs[i]) && vp.1 == b@.len());
    }
    r
}


/// Parses the canonical bytes of a quake record; exact inverse of
/// [`serialize_quake`]: `Ok(q)` comes back if and only if `b` is `q`'s
/// canonical serialization, and every other input is malformed.
#[verifier::rlimit(100)]
pub fn deserialize_quake(b: &Vec<u8>) -> (r: Result<QuakeRecord, CodecError>)
    ensures
        r matches Ok(q) ==> b@ == spec_quake_body(q@),
        forall|qv: QuakeView| b@ == #[trigger] spec_quake_body(qv) ==> (r matches Ok(q)
            && q@ == qv),
        r is Err ==> r == Err::<QuakeRecord, CodecError>(CodecError::MalformedPayload),
{
    let nlen = b.len();
    if nlen == 0 || b[0] != TAG_TIME {
        assert forall|qv: QuakeView| b@ == #[trigger] spec_quake_body(qv) implies false by {
            lemma_quake_decomp(b@, qv);
        }
        return Err(CodecError::MalformedPayload);
    }
    let step1 = parse_varint(b, 1);
    if step1.is_none() {
        assert forall|qv: QuakeView| b@ == #[trigger] spec_quake_body(qv) implies false by {
            lemma_quake_decomp(b@, qv);
        }
        return Err(CodecError::MalformedPayload);
    }
    let (time, p1) = step1.unwrap();
    let step2 = parse_opt_epi(b, p1);
    if step2.is_none() {
        assert forall|qv: QuakeView| b@ == #[trigger] spec_quake_body(qv) implies false by {
            lemma_quake_decomp(b@, qv);
        }
        return Err(CodecError::MalformedPayload);
    }
    let (epi, p2) = step2.unwrap();
    let mut tags: Vec<u8> = Vec::new();
    tags.push(24);
    tags.push(32);
    tags.push(40);
    tags.push(48);
    tags.push(56);
    tags.push(64);
    tags.push(72);
    tags.push(80);
    tags.push(88);
    assert(tags@ =~= seq![24u8, 32u8, 40u8, 48u8, 56u8, 64u8, 72u8, 80u8, 88u8]);
    let step3 = parse_buckets_from(b, p2, &tags, 0);
    proof {
        assert forall|qv: QuakeView| b@ == #[trigger] spec_quake_body(qv) implies ({
            let cs = seq![qv.one, qv.two, qv.three, qv.four, qv.five_minus, qv.five_plus,
                qv.six_minus, qv.six_plus, qv.seven];
            &&& time == qv.time
            &&& epi == qv.epicenter
            &&& p2 == 1 + spec_varint(qv.time).len() + epi_part(qv.epicenter).len()
            &&& mk_items(tags@.skip(0), cs) =~= quake_items(qv)
            &&& b@.subrange(p2 as int, b@.len() as int) == spec_buckets(mk_items(
                tags@.skip(0), cs))
            &&& p2 + spec_buckets(mk_items(tags@.skip(0), cs)).len() == b@.len()
        }) by {
            lemma_quake_decomp(b@, qv);
            let cs = seq![qv.one, qv.two, qv.three, qv.four, qv.five_minus, qv.five_plus,
                qv.six_minus, qv.six_plus, qv.seven];
            assert(mk_items(tags@.skip(0), cs) =~= quake_items(qv));
        }
    }
    if step3.is_none() {
        return Err(CodecError::MalformedPayload);
    }
    let (mut vecs, _pend) = step3.unwrap();
    if vecs.len() != 9 {
        return Err(CodecError::MalformedPayload);
    }
    let one = vecs.remove(0);
    let two = vecs.remove(0);
    let three = vecs.remove(0);
    let four = vecs.remove(0);
    let five_minus = vecs.remove(0);
    let five_plus = vecs.remove(0);
    let six_minus = vecs.remove(0);
    let six_plus = vecs.remove(0);
    let seven = vecs.remove(0);
    let rec = QuakeRecord {
        time,
        epicenter: epi,
        one,
        two,
        three,
        four,
        five_minus,
        five_plus,
        six_minus,
        six_plus,
        seven,
    };
    let again = serialize_quake(&rec);
    if !bytes_eq(b, &again) {
        assert forall|qv: QuakeView| b@ == #[trigger] spec_quake_body(qv) implies false by {
            assert(rec@ =~= qv);
        }
        return Err(CodecError::MalformedPayload);
    }
    assert forall|qv: QuakeView| b@ == #[trigger] spec_quake_body(qv) implies rec@ =~= qv by {}
    Ok(rec)
}


/// Parses the canonical bytes of a tsunami record; exact inverse of
/// [`serialize_tsunami`].
#[verifier::rlimit(100)]
pub fn deserialize_tsunami(b: &Vec<u8>) -> (r: Result<TsunamiRecord, CodecError>)
    ensures
        r matches Ok(t) ==> b@ == spec_tsunami_body(t@),
        forall|tv: TsunamiView| b@ == #[trigger] spec_tsunami_body(tv) ==> (r matches Ok(t)
            && t@ == tv),
        r is Err ==> r == Err::<TsunamiRecord, CodecError>(CodecError::MalformedPayload),
{
    let nlen = b.len();
    if nlen == 0 || b[0] != TAG_TIME {
        assert forall|tv: TsunamiView| b@ == #[trigger] spec_tsunami_body(tv) implies false by {
            lemma_tsunami_decomp(b@, tv);
        }
        return Err(CodecError::MalformedPayload);
    }
    let step1 = parse_varint(b, 1);
    if step1.is_none() {
        assert forall|tv: TsunamiView| b@ == #[trigger] spec_tsunami_body(tv) implies false by {
            lemma_tsunami_decomp(b@, tv);
        }
        return Err(CodecError::MalformedPayload);
    }
    let (time, p1) = step1.unwrap();
    let step2 = parse_opt_epi(b, p1);
    if step2.is_none() {
        assert forall|tv: TsunamiView| b@ == #[trigger] spec_tsunami_body(tv) implies false by {
            lemma_tsunami_decomp(b@, tv);
        }
        return Err(CodecError::MalformedPayload);
    }
    let (epi, p2) = step2.unwrap();
    let mut tags: Vec<u8> = Vec::new();
    tags.push(24);
    tags.push(32);
    tags.push(40);
    tags.push(48);
    assert(tags@ =~= seq![24u8, 32u8, 40u8, 48u8]);
    let step3 = parse_buckets_from(b, p2, &tags, 0);
    proof {
        assert forall|tv: TsunamiView| b@ == #[trigger] spec_tsunami_body(tv) implies ({
            let cs = seq![tv.forecast, tv.advisory, tv.warning, tv.major_warning];
            &&& time == tv.time
            &&& epi == tv.epicenter
            &&& mk_items(tags@.skip(0), cs) =~= tsunami_items(tv)
            &&& b@.subrange(p2 as int, b@.len() as int) == spec_buckets(mk_items(
                tags@.skip(0), cs))
            &&& p2 + spec_buckets(mk_items(tags@.skip(0), cs)).len() == b@.len()
        }) by {
            lemma_tsunami_decomp(b@, tv);
            let cs = seq![tv.forecast, tv.advisory, tv.warning, tv.major_warning];
            assert(mk_items(tags@.skip(0), cs) =~= tsunami_items(tv));
        }
    }
    if step3.is_none() {
        return Err(CodecError::MalformedPayload);
    }
    let (mut vecs, _pend) = step3.unwrap();
    if vecs.len() != 4 {
        return Err(CodecError::MalformedPayload);
    }
    let forecast = vecs.remove(0);
    let advisory = vecs.remove(0);
    let warning = vecs.remove(0);
    let major_warning = vecs.remove(0);
    let rec = TsunamiRecord { time, epicenter: epi, forecast, advisory, warning, major_warning };
    let again = serialize_tsunami(&rec);
    if !bytes_eq(b, &again) {
        assert forall|tv: TsunamiView| b@ == #[trigger] spec_tsunami_body(tv) implies false by {
            assert(rec@ =~= tv);
        }
        return Err(CodecError::MalformedPayload);
    }
    assert forall|tv: TsunamiView| b@ == #[trigger] spec_tsunami_body(tv) implies rec@ =~= tv
        by {}
    Ok(rec)
}

/// Parses a payload for a given envelope type id.  Type ids other than 0 and
/// 1 are rejected as unsupported; for the known ids the parse is the exact
/// inverse of [`serialize_record`].
pub fn deserialize_record(b: &Vec<u8>, id: u8) -> (r: Result<Record, CodecError>)
    ensures
        r matches Ok(rec) ==> spec_type_id(rec@) == id && b@ == spec_body(rec@),
        forall|rv: RecordView| spec_type_id(rv) == id && b@ == #[trigger] spec_body(rv)
            ==> (r matches Ok(rec) && rec@ == rv),
        id != 0 && id != 1 ==> r == Err::<Record, CodecError>(CodecError::UnsupportedTypeId(id)),
        r is Err ==> (r == Err::<Record, CodecError>(CodecError::MalformedPayload)
            || r == Err::<Record, CodecError>(CodecError::UnsupportedTypeId(id))),
{
    if id == 0 {
        match deserialize_quake(b) {
            Ok(q) => Ok(Record::Quake(q)),
            Err(e) => Err(e),
        }
    } else if id == 1 {
        match deserialize_tsunami(b) {
            Ok(t) => Ok(Record::Tsunami(t)),
            Err(e) => Err(e),
        }
    } else {
        Err(CodecError::UnsupportedTypeId(id))
    }
}

} // verus!

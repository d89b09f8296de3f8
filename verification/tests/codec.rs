use alertcode::auth::{tag, verify};
use alertcode::codec::{decode, detect_scheme, encode};
use alertcode::command::render_command;
use alertcode::errors::CodecError;
use alertcode::payload::{deserialize_record, serialize_record};
use alertcode::records::{Epicenter, QuakeRecord, Record, Scheme, TsunamiRecord};
use alertcode::transport_a::{a_decode, a_encode};
use alertcode::transport_b::b65536_encode;

fn sample_quake() -> QuakeRecord {
    QuakeRecord {
        time: 1700000000,
        epicenter: Some(Epicenter { lat_x10: 356, lon_x10: 1397 }),
        one: vec![130000],
        two: vec![],
        three: vec![],
        four: vec![],
        five_minus: vec![],
        five_plus: vec![],
        six_minus: vec![],
        six_plus: vec![],
        seven: vec![],
    }
}

fn sample_tsunami() -> TsunamiRecord {
    TsunamiRecord {
        time: 1700000000,
        epicenter: None,
        forecast: vec![10, 20],
        advisory: vec![],
        warning: vec![],
        major_warning: vec![30],
    }
}

#[test]
fn quake_round_trip_scheme_a() {
    let rec = Record::Quake(sample_quake());
    let s = encode(&rec, b"", Scheme::A).unwrap();
    let d = decode(&s).unwrap();
    assert_eq!(d.scheme, Scheme::A);
    assert_eq!(d.record, rec);
    assert!(verify(b"", &d.body, &d.tag));
}

#[test]
fn quake_round_trip_scheme_b() {
    let rec = Record::Quake(sample_quake());
    let s = encode(&rec, b"key", Scheme::B).unwrap();
    let d = decode(&s).unwrap();
    assert_eq!(d.scheme, Scheme::B);
    assert_eq!(d.record, rec);
    assert!(verify(b"key", &d.body, &d.tag));
    assert!(!verify(b"other", &d.body, &d.tag));
}

#[test]
fn tsunami_round_trip_scheme_a() {
    let rec = Record::Tsunami(sample_tsunami());
    let s = encode(&rec, b"secret", Scheme::A).unwrap();
    let d = decode(&s).unwrap();
    assert_eq!(d.scheme, Scheme::A);
    assert_eq!(d.record, rec);
    assert!(verify(b"secret", &d.body, &d.tag));
}

#[test]
fn tsunami_scheme_b_rejected() {
    let rec = Record::Tsunami(sample_tsunami());
    assert_eq!(encode(&rec, b"", Scheme::B), Err(CodecError::UnsupportedSchemeForPayload));
}

#[test]
fn empty_bucket_reads_back_empty() {
    // `seven` set empty encodes to the same token as `seven` absent on the
    // wire and reads back as the empty list.
    let rec = Record::Quake(sample_quake());
    let s = encode(&rec, b"", Scheme::A).unwrap();
    let d = decode(&s).unwrap();
    match d.record {
        Record::Quake(q) => {
            assert_eq!(q.seven, Vec::<u32>::new());
            assert_eq!(q.one, vec![130000]);
            assert_eq!(q.epicenter, Some(Epicenter { lat_x10: 356, lon_x10: 1397 }));
            assert_eq!(q.time, 1700000000);
        }
        _ => panic!("wrong shape"),
    }
}

#[test]
fn corrupt_first_char_is_detected() {
    let rec = Record::Quake(sample_quake());
    let s = encode(&rec, b"", Scheme::A).unwrap();
    let orig = decode(&s).unwrap();
    let mut chars: Vec<char> = s.chars().collect();
    let flipped = char::from_u32((chars[0] as u32) ^ 1).unwrap();
    chars[0] = flipped;
    let corrupt: String = chars.into_iter().collect();
    match decode(&corrupt) {
        Err(e) => assert!(
            e == CodecError::InvalidCodepoint
                || e == CodecError::TruncatedEncoding
                || e == CodecError::EnvelopeTooShort
                || e == CodecError::MalformedPayload
                || matches!(e, CodecError::UnsupportedTypeId(_))
        ),
        Ok(d) => {
            assert!(d.body != orig.body || d.tag != orig.tag);
        }
    }
}

#[test]
fn envelope_too_short_scheme_b() {
    // 20 bytes, first byte zero so the string is detected as Scheme B.
    let buf = vec![0u8; 20];
    let s = b65536_encode(&buf);
    assert_eq!(decode(&s).unwrap_err(), CodecError::EnvelopeTooShort);
}

#[test]
fn envelope_too_short_scheme_a() {
    let buf = vec![7u8; 21];
    let s = a_encode(&buf);
    assert_eq!(decode(&s).unwrap_err(), CodecError::EnvelopeTooShort);
}

#[test]
fn empty_body_fails_at_payload_layer() {
    // 21 bytes under Scheme B and 22 under Scheme A parse as an envelope
    // with an empty body, which then fails payload parsing, not the
    // envelope layer.
    let b = vec![0u8; 21];
    let s = b65536_encode(&b);
    assert_eq!(decode(&s).unwrap_err(), CodecError::MalformedPayload);
    let mut a = vec![0u8; 22];
    a[1] = 0xFF;
    let s = a_encode(&a);
    assert_eq!(decode(&s).unwrap_err(), CodecError::MalformedPayload);
}

#[test]
fn unsupported_type_id_reported() {
    let mut buf = vec![0u8; 22];
    buf[0] = 9;
    buf[1] = 0xFF;
    let s = a_encode(&buf);
    assert_eq!(decode(&s).unwrap_err(), CodecError::UnsupportedTypeId(9));
}

#[test]
fn detection_of_both_schemes() {
    let rec = Record::Quake(sample_quake());
    let sa = encode(&rec, b"", Scheme::A).unwrap();
    let sb = encode(&rec, b"", Scheme::B).unwrap();
    assert_eq!(detect_scheme(&sa), Some(Scheme::A));
    assert_eq!(detect_scheme(&sb), Some(Scheme::B));
    assert_eq!(detect_scheme(""), None);
}

#[test]
fn detection_boundary_values() {
    // Scheme A strings are detected as A for any payload.
    for buf in [vec![0u8], vec![255u8], vec![0u8; 40], vec![255u8; 40]] {
        assert_eq!(detect_scheme(&a_encode(&buf)), Some(Scheme::A));
    }
    // Scheme B detection holds exactly when the first byte is zero: a
    // nonzero first byte lands in the first character's low byte.
    assert_eq!(detect_scheme(&b65536_encode(&vec![0u8, 5u8])), Some(Scheme::B));
    assert_eq!(detect_scheme(&b65536_encode(&vec![1u8, 5u8])), Some(Scheme::A));
}

#[test]
fn empty_string_is_truncated() {
    assert_eq!(decode("").unwrap_err(), CodecError::TruncatedEncoding);
}

#[test]
fn tag_is_deterministic() {
    let t1 = tag(b"k", b"body");
    let t2 = tag(b"k", b"body");
    assert_eq!(t1, t2);
    assert_eq!(t1.len(), 20);
    let t3 = tag(b"k", b"bodz");
    assert_ne!(t1, t3);
    let t4 = tag(b"j", b"body");
    assert_ne!(t1, t4);
}

#[test]
fn tamper_detection() {
    let key = b"a key";
    let body = b"serialized payload bytes".to_vec();
    let t = tag(key, &body);
    assert!(verify(key, &body, &t));
    for i in 0..body.len() {
        for bit in 0..8 {
            let mut tampered = body.clone();
            tampered[i] ^= 1u8 << bit;
            assert!(!verify(key, &tampered, &t));
        }
    }
}

#[test]
fn transport_a_round_trips_all_lengths() {
    for n in 0..40usize {
        let buf: Vec<u8> = (0..n).map(|i| (i * 37 + 11) as u8).collect();
        let s = a_encode(&buf);
        assert_eq!(a_decode(&s).unwrap(), buf);
    }
}

#[test]
fn transport_a_rejects_foreign_text() {
    assert!(a_decode("hello").is_err());
    assert!(a_decode("買い手").is_err());
}

#[test]
fn payload_round_trip_and_canonicality() {
    let rec = Record::Tsunami(TsunamiRecord {
        time: 0,
        epicenter: Some(Epicenter { lat_x10: -356, lon_x10: 1397 }),
        forecast: vec![1, 2, 3],
        advisory: vec![4],
        warning: vec![],
        major_warning: vec![5, 5],
    });
    let b = serialize_record(&rec);
    assert_eq!(deserialize_record(&b, 1).unwrap(), rec);
    // The same bytes under the other type id read as a quake whose low
    // buckets carry the tsunami lists: the envelope's type id, not the
    // payload bytes, decides the shape.
    match deserialize_record(&b, 0).unwrap() {
        Record::Quake(q) => {
            assert_eq!(q.one, vec![1, 2, 3]);
            assert_eq!(q.two, vec![4]);
            assert_eq!(q.four, vec![5, 5]);
            assert_eq!(q.seven, Vec::<u32>::new());
        }
        _ => panic!("wrong shape"),
    }
    // A non-minimal varint is not canonical.
    let bad = vec![0x08u8, 0x80u8, 0x00u8];
    assert_eq!(deserialize_record(&bad, 0).unwrap_err(), CodecError::MalformedPayload);
    // Unknown type ids are reported as such.
    assert_eq!(deserialize_record(&b, 7).unwrap_err(), CodecError::UnsupportedTypeId(7));
}

#[test]
fn negative_epicenter_round_trip() {
    let mut q = sample_quake();
    q.epicenter = Some(Epicenter { lat_x10: -356, lon_x10: -1397 });
    let rec = Record::Quake(q);
    let s = encode(&rec, b"", Scheme::A).unwrap();
    assert_eq!(decode(&s).unwrap().record, rec);
}

#[test]
fn command_reconstruction_quake() {
    let rec = Record::Quake(sample_quake());
    assert_eq!(
        render_command(&rec, Scheme::A),
        "encode scheme-a v0 --time 1700000000 --epicenter 35.6,139.7 --one 130000"
    );
}

#[test]
fn command_reconstruction_tsunami_negative_epicenter() {
    let mut t = sample_tsunami();
    t.epicenter = Some(Epicenter { lat_x10: -5, lon_x10: 1400 });
    let rec = Record::Tsunami(t);
    assert_eq!(
        render_command(&rec, Scheme::B),
        "encode scheme-b tsunami --time 1700000000 --epicenter -0.5,140.0 \
         --forecast 10 --forecast 20 --major-warning 30"
    );
}

#[test]
fn transport_a_rejects_noncanonical_padding() {
    // A lone full-group codepoint carries fifteen bits: one byte plus seven
    // trailing bits that must all be one-bits.  Value zero has zero pad
    // bits, so it is no canonical image.
    let lone15 = char::from_u32(0xF0001).unwrap().to_string();
    assert_eq!(a_decode(&lone15).unwrap_err(), CodecError::TruncatedEncoding);
}

#[test]
fn transport_a_rejects_lone_pad_group() {
    // A seven-bit codepoint alone carries no whole byte; the canonical
    // image of the empty buffer is the empty string.
    let lone7 = char::from_u32(0xE0001).unwrap().to_string();
    assert_eq!(a_decode(&lone7).unwrap_err(), CodecError::TruncatedEncoding);
    assert_eq!(a_decode("").unwrap(), Vec::<u8>::new());
    assert_eq!(a_encode(&Vec::new()), "");
}

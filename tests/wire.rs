use geo_track::data::{Coord, Real, SourceId, Status};
use ciborium::value::Value;
use geo_track::encode::encode_status;
use geo_track::wire::{decode_datagram, decode_status, CborDecoder, DecodeError, Step};

fn num(v: f64) -> Real {
    Real { bits: v.to_bits() }
}

fn full() -> Status {
    Status {
        source_id: SourceId(0x0aaec05a_0e7d_4fd5_abc0_0ba69e3cfe11),
        timestamp: 1627364719,
        position: Some(Coord { x: num(24.745_278), y: num(59.437_222) }),
        bearing: Some(num(1.234)),
        speed: Some(num(15.)),
    }
}

const FULL_CBOR: &[u8] = &[
    0xa5, 0x68, 0x73, 0x6f, 0x75, 0x72, 0x63, 0x65, 0x49, 0x64, 0x50, 0x0a, 0xae, 0xc0, 0x5a,
    0x0e, 0x7d, 0x4f, 0xd5, 0xab, 0xc0, 0x0b, 0xa6, 0x9e, 0x3c, 0xfe, 0x11, 0x69, 0x74, 0x69,
    0x6d, 0x65, 0x73, 0x74, 0x61, 0x6d, 0x70, 0x1a, 0x60, 0xff, 0x9d, 0x6f, 0x68, 0x70, 0x6f,
    0x73, 0x69, 0x74, 0x69, 0x6f, 0x6e, 0xa2, 0x61, 0x78, 0xfb, 0x40, 0x38, 0xbe, 0xca, 0x89,
    0xfc, 0x6d, 0xa4, 0x61, 0x79, 0xfb, 0x40, 0x4d, 0xb7, 0xf6, 0xe3, 0xf7, 0x8b, 0xbd, 0x67,
    0x62, 0x65, 0x61, 0x72, 0x69, 0x6e, 0x67, 0xfb, 0x3f, 0xf3, 0xbe, 0x76, 0xc8, 0xb4, 0x39,
    0x58, 0x65, 0x73, 0x70, 0x65, 0x65, 0x64, 0xf9, 0x4b, 0x80,
];

const MINIMAL_CBOR: &[u8] = &[
    0xa2, 0x68, 0x73, 0x6f, 0x75, 0x72, 0x63, 0x65, 0x49, 0x64, 0x50, 0x0a, 0xae, 0xc0, 0x5a,
    0x0e, 0x7d, 0x4f, 0xd5, 0xab, 0xc0, 0x0b, 0xa6, 0x9e, 0x3c, 0xfe, 0x11, 0x69, 0x74, 0x69,
    0x6d, 0x65, 0x73, 0x74, 0x61, 0x6d, 0x70, 0x1a, 0x60, 0xff, 0x9d, 0x6f,
];

/// A record holding only the key fields, with `extra` entries appended and
/// the entry count of the map set to `count`.
fn record_with(count: u8, extra: &[u8]) -> Vec<u8> {
    let mut v = MINIMAL_CBOR.to_vec();
    v[0] = 0xa0 + count;
    v.extend_from_slice(extra);
    v
}

fn decoded(bytes: &[u8]) -> Status {
    match decode_status(bytes) {
        Step::Done(st, n) => {
            assert_eq!(n, bytes.len());
            st
        }
        other => panic!("unexpected outcome: {:?}", other),
    }
}

#[test]
fn decodes_full_record_with_half_precision_speed() {
    let st = decoded(FULL_CBOR);
    assert_eq!(st, full());
}

#[test]
fn decodes_single_precision_and_subnormal_half_floats() {
    // "bearing": single-precision 0.5
    let single = record_with(3, &[0x67, 0x62, 0x65, 0x61, 0x72, 0x69, 0x6e, 0x67, 0xfa, 0x3f, 0x00, 0x00, 0x00]);
    assert_eq!(decoded(&single).bearing, Some(num(0.5)));
    // "speed": the smallest positive half-precision subnormal, 2^-24
    let tiny = record_with(3, &[0x65, 0x73, 0x70, 0x65, 0x65, 0x64, 0xf9, 0x00, 0x01]);
    assert_eq!(decoded(&tiny).speed, Some(num(5.960464477539063e-8)));
    // "speed": half-precision negative infinity
    let inf = record_with(3, &[0x65, 0x73, 0x70, 0x65, 0x65, 0x64, 0xf9, 0xfc, 0x00]);
    assert_eq!(decoded(&inf).speed, Some(num(f64::NEG_INFINITY)));
    // "speed": a single-precision subnormal, 2^-149
    let sub = record_with(3, &[0x65, 0x73, 0x70, 0x65, 0x65, 0x64, 0xfa, 0x00, 0x00, 0x00, 0x01]);
    assert_eq!(decoded(&sub).speed, Some(num(f64::from(f32::from_bits(1)))));
}

#[test]
fn every_proper_prefix_is_incomplete() {
    for n in 0..FULL_CBOR.len() {
        assert!(matches!(decode_status(&FULL_CBOR[..n]), Step::Incomplete), "prefix {}", n);
    }
}

#[test]
fn rejects_unknown_repeated_and_missing_fields() {
    // "speeds"
    let unknown = record_with(3, &[0x66, 0x73, 0x70, 0x65, 0x65, 0x64, 0x73, 0xf9, 0x4b, 0x80]);
    assert!(matches!(decode_status(&unknown), Step::Invalid));
    // "timestamp" a second time
    let repeated = record_with(3, &[0x69, 0x74, 0x69, 0x6d, 0x65, 0x73, 0x74, 0x61, 0x6d, 0x70, 0x00]);
    assert!(matches!(decode_status(&repeated), Step::Invalid));
    // the map announces one entry only: no timestamp
    let mut missing = MINIMAL_CBOR.to_vec();
    missing[0] = 0xa1;
    assert!(matches!(decode_status(&missing), Step::Invalid));
    // an indefinite-length map
    let mut indefinite = MINIMAL_CBOR.to_vec();
    indefinite[0] = 0xbf;
    assert!(matches!(decode_status(&indefinite), Step::Invalid));
    // not a map at all
    assert!(matches!(decode_status(&[0x01]), Step::Invalid));
}

#[test]
fn rejects_timestamp_past_year_9999() {
    let mut v = MINIMAL_CBOR[..37].to_vec();
    // 253402300800 as an 8-byte unsigned integer
    v.extend_from_slice(&[0x1b, 0x00, 0x00, 0x00, 0x3a, 0xff, 0xf4, 0x41, 0x80]);
    assert!(matches!(decode_status(&v), Step::Invalid));
    let mut last = MINIMAL_CBOR[..37].to_vec();
    // 253402300799, the last second of year 9999
    last.extend_from_slice(&[0x1b, 0x00, 0x00, 0x00, 0x3a, 0xff, 0xf4, 0x41, 0x7f]);
    assert_eq!(decoded(&last).timestamp, 253402300799);
}

#[test]
fn datagram_errors() {
    assert_eq!(decode_datagram(MINIMAL_CBOR), Ok(decoded(MINIMAL_CBOR)));
    let mut trailing = MINIMAL_CBOR.to_vec();
    trailing.push(0x00);
    assert_eq!(decode_datagram(&trailing), Err(DecodeError::TrailingBytes));
    assert_eq!(decode_datagram(&MINIMAL_CBOR[..20]), Err(DecodeError::Truncated));
    assert_eq!(decode_datagram(&[0xff, 0x00]), Err(DecodeError::Malformed));
    assert_eq!(decode_datagram(&[]), Err(DecodeError::Truncated));
}

#[test]
fn decoder_takes_records_off_the_buffer() {
    let mut dec = CborDecoder::new();
    let mut buf = FULL_CBOR.to_vec();
    buf.extend_from_slice(MINIMAL_CBOR);
    buf.extend_from_slice(&MINIMAL_CBOR[..5]);
    assert_eq!(dec.decode(&mut buf), Ok(Some(full())));
    assert_eq!(buf.len(), MINIMAL_CBOR.len() + 5);
    assert_eq!(dec.decode(&mut buf), Ok(Some(decoded(MINIMAL_CBOR))));
    assert_eq!(buf, MINIMAL_CBOR[..5].to_vec());
    assert_eq!(dec.decode(&mut buf), Ok(None));
    assert_eq!(buf.len(), 5);
    let mut bad = vec![0x42u8];
    assert_eq!(dec.decode(&mut bad), Err(DecodeError::Malformed));
    assert_eq!(bad, vec![0x42u8]);
}

#[test]
fn decodes_bytes_written_by_ciborium() {
    let map = Value::Map(vec![
        (Value::Text("speed".into()), Value::Float(2.5)),
        (Value::Text("timestamp".into()), Value::Integer(10u64.into())),
        (
            Value::Text("position".into()),
            Value::Map(vec![
                (Value::Text("y".into()), Value::Float(-33.25)),
                (Value::Text("x".into()), Value::Float(0.1)),
            ]),
        ),
        (Value::Text("sourceId".into()), Value::Bytes((1u128 << 100).to_be_bytes().to_vec())),
    ]);
    let mut bytes = Vec::new();
    ciborium::ser::into_writer(&map, &mut bytes).unwrap();
    let st = decoded(&bytes);
    assert_eq!(st.source_id, SourceId(1u128 << 100));
    assert_eq!(st.timestamp, 10);
    assert_eq!(st.speed, Some(num(2.5)));
    assert_eq!(st.position, Some(Coord { x: num(0.1), y: num(-33.25) }));
    assert_eq!(st.bearing, None);
}

#[test]
fn cbor_serialization_full() {
    let encoded = encode_status(&full());
    assert_eq!(encoded, FULL_CBOR);
}

#[test]
fn cbor_serialization_minimal() {
    let encoded = encode_status(&decoded(MINIMAL_CBOR));
    assert_eq!(encoded, MINIMAL_CBOR);
}

fn ciborium_bytes(v: &Value) -> Vec<u8> {
    let mut bytes = Vec::new();
    ciborium::ser::into_writer(v, &mut bytes).unwrap();
    bytes
}

#[test]
fn floats_take_the_precision_ciborium_takes() {
    for v in [0.0, -0.0, 1.5, 65504.0, 5.960464477539063e-8, 0.1, 1e-40, 3.4028234663852886e38, f64::INFINITY, f64::NAN, 1e300] {
        let mut st = decoded(MINIMAL_CBOR);
        st.bearing = Some(num(v));
        let encoded = encode_status(&st);
        let float_at = MINIMAL_CBOR.len() + 8;
        assert_eq!(&encoded[float_at..], &ciborium_bytes(&Value::Float(v))[..], "value {}", v);
        assert_eq!(decoded(&encoded), st);
    }
}

#[test]
fn timestamps_before_the_epoch_encode_as_negative_integers() {
    let mut st = decoded(MINIMAL_CBOR);
    st.timestamp = -1;
    let encoded = encode_status(&st);
    assert_eq!(encoded[encoded.len() - 1], 0x20);
    assert!(matches!(decode_status(&encoded), Step::Invalid));
}

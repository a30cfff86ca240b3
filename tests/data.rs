use geo_track::data::{Bearing, Coord, Real, SourceId, Status};
use geo_track::wire::{decode_status, Step};

fn num(v: f64) -> Real {
    Real { bits: v.to_bits() }
}

fn full() -> Status {
    Status {
        source_id: SourceId(0x0aaec05a_0e7d_4fd5_abc0_0ba69e3cfe11),
        timestamp: 1627364719,
        position: Some(Coord { x: num(24.745_278), y: num(59.437_222) }),
        bearing: Some(num(1.234)),
        speed: Some(num(15.)),
    }
}

fn minimal() -> Status {
    Status {
        source_id: SourceId(0x0aaec05a_0e7d_4fd5_abc0_0ba69e3cfe11),
        timestamp: 1627364719,
        position: None,
        bearing: None,
        speed: None,
    }
}

const MINIMAL_CBOR: &[u8] = &[
    0xa2, 0x68, 0x73, 0x6f, 0x75, 0x72, 0x63, 0x65, 0x49, 0x64, 0x50, 0x0a, 0xae, 0xc0, 0x5a,
    0x0e, 0x7d, 0x4f, 0xd5, 0xab, 0xc0, 0x0b, 0xa6, 0x9e, 0x3c, 0xfe, 0x11, 0x69, 0x74, 0x69,
    0x6d, 0x65, 0x73, 0x74, 0x61, 0x6d, 0x70, 0x1a, 0x60, 0xff, 0x9d, 0x6f,
];

#[test]
fn status_merge() {
    let merged1 = full().merge(&minimal());
    let merged2 = minimal().merge(&full());

    assert_eq!(merged1.source_id, full().source_id);
    assert_eq!(merged1.timestamp, full().timestamp);
    assert_eq!(merged1.position, full().position);
    assert_eq!(merged1.bearing, full().bearing);
    assert_eq!(merged1.speed, full().speed);

    assert_eq!(merged2.source_id, full().source_id);
    assert_eq!(merged2.timestamp, full().timestamp);
    assert_eq!(merged2.position, full().position);
    assert_eq!(merged2.bearing, full().bearing);
    assert_eq!(merged2.speed, full().speed);
}

#[test]
fn cbor_deserialization_minimal() {
    let decoded = match decode_status(MINIMAL_CBOR) {
        Step::Done(st, n) => {
            assert_eq!(n, MINIMAL_CBOR.len());
            st
        }
        other => panic!("unexpected outcome: {:?}", other),
    };

    assert_eq!(decoded.source_id, minimal().source_id);
    assert_eq!(decoded.timestamp, minimal().timestamp);
    assert_eq!(decoded.position, None);
    assert_eq!(decoded.bearing, None);
    assert_eq!(decoded.speed, None);
}

#[test]
fn merge_keeps_key_of_base_and_prefers_incoming_fields() {
    let mut incoming = minimal();
    incoming.source_id = SourceId(7);
    incoming.timestamp = 99;
    incoming.bearing = Some(num(0.5));
    let base = full();
    let m = base.merge(&incoming);
    assert_eq!(m.source_id, base.source_id);
    assert_eq!(m.timestamp, base.timestamp);
    assert_eq!(m.bearing, Some(num(0.5)));
    assert_eq!(m.position, base.position);
    assert_eq!(m.speed, base.speed);
}

#[test]
fn source_id_text_is_hyphenated_uuid() {
    let id = SourceId(0x0aaec05a_0e7d_4fd5_abc0_0ba69e3cfe11);
    assert_eq!(id.to_text(), "0aaec05a-0e7d-4fd5-abc0-0ba69e3cfe11");
    assert_eq!(SourceId(0).to_text(), "00000000-0000-0000-0000-000000000000");
}

#[test]
fn bearing_keeps_degrees() {
    let b = Bearing::new(270.0f64);
    assert_eq!(b.as_degrees(), 270.0);
    assert_eq!(Bearing::new(90u32).as_degrees(), 90);
}

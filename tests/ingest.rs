use geo_track::data::{SourceId, Status};
use geo_track::dispatch::{step_outcome, CqrsError};
use geo_track::ingest::{after_forward, Connection, Flow, IngestError, ReadEvent};
use geo_track::storage::{
    init, on_command, on_query, DupeStrategy, GetStatuses, StorageCommand, StorageConfig,
    StorageError, StorageQuery, TimeBound, TimeRange,
};
use geo_track::encode::encode_status;
use geo_track::wire::{decode_datagram, DecodeError};

const MINIMAL_CBOR: &[u8] = &[
    0xa2, 0x68, 0x73, 0x6f, 0x75, 0x72, 0x63, 0x65, 0x49, 0x64, 0x50, 0x0a, 0xae, 0xc0, 0x5a,
    0x0e, 0x7d, 0x4f, 0xd5, 0xab, 0xc0, 0x0b, 0xa6, 0x9e, 0x3c, 0xfe, 0x11, 0x69, 0x74, 0x69,
    0x6d, 0x65, 0x73, 0x74, 0x61, 0x6d, 0x70, 0x1a, 0x60, 0xff, 0x9d, 0x6f,
];

fn minimal() -> Status {
    Status {
        source_id: SourceId(0x0aaec05a_0e7d_4fd5_abc0_0ba69e3cfe11),
        timestamp: 1627364719,
        position: None,
        bearing: None,
        speed: None,
    }
}

fn with_timestamp(ts: u8) -> Vec<u8> {
    let mut v = MINIMAL_CBOR[..37].to_vec();
    v.push(ts);
    v
}

/// Feeds `chunks` to a connection, taking records whenever it has them.
fn run(chunks: &[&[u8]]) -> (Vec<Status>, Option<IngestError>) {
    let mut conn = Connection::new();
    let mut out = Vec::new();
    for chunk in chunks {
        match conn.on_read(ReadEvent::Data(chunk.to_vec())) {
            Flow::Continue => {}
            Flow::Close(_) => panic!("data closed the connection"),
        }
        loop {
            match conn.next_record() {
                Ok(Some(st)) => out.push(st),
                Ok(None) => break,
                Err(e) => return (out, Some(e)),
            }
        }
    }
    (out, None)
}

#[test]
fn split_reads_decode_like_one_read() {
    let mut stream = MINIMAL_CBOR.to_vec();
    stream.extend(with_timestamp(7));
    stream.extend(with_timestamp(9));
    let (whole, err) = run(&[&stream]);
    assert!(err.is_none());
    assert_eq!(whole.len(), 3);
    assert_eq!(whole[0], minimal());
    assert_eq!(whole[2].timestamp, 9);
    let bytes: Vec<&[u8]> = stream.chunks(1).collect();
    let (one_by_one, err) = run(&bytes);
    assert!(err.is_none());
    assert_eq!(one_by_one, whole);
    let (odd, _) = run(&[&stream[..3], &stream[3..50], &stream[50..51], &stream[51..]]);
    assert_eq!(odd, whole);
}

#[test]
fn malformed_bytes_close_after_the_records_before_them() {
    let mut stream = MINIMAL_CBOR.to_vec();
    stream.push(0xff);
    let (records, err) = run(&[&stream[..10], &stream[10..]]);
    assert_eq!(records, vec![minimal()]);
    assert!(matches!(err, Some(IngestError::Deserialize(DecodeError::Malformed))));
}

#[test]
fn stalled_connection_times_out_and_another_goes_on() {
    let mut stalled = Connection::new();
    let mut lively = Connection::new();
    assert!(matches!(stalled.on_read(ReadEvent::Data(MINIMAL_CBOR.to_vec())), Flow::Continue));
    assert!(matches!(stalled.next_record(), Ok(Some(_))));
    assert!(matches!(lively.on_read(ReadEvent::Data(MINIMAL_CBOR[..30].to_vec())), Flow::Continue));
    assert!(matches!(lively.next_record(), Ok(None)));
    assert!(matches!(stalled.on_read(ReadEvent::TimedOut), Flow::Close(Err(IngestError::Timeout))));
    assert!(matches!(lively.on_read(ReadEvent::Data(MINIMAL_CBOR[30..].to_vec())), Flow::Continue));
    match lively.next_record() {
        Ok(Some(st)) => assert_eq!(st, minimal()),
        _ => panic!("the second connection lost its record"),
    }
    assert!(matches!(lively.on_read(ReadEvent::End), Flow::Close(Ok(()))));
}

#[test]
fn end_inside_a_record_is_truncation() {
    let mut conn = Connection::new();
    assert!(matches!(conn.on_read(ReadEvent::Data(MINIMAL_CBOR[..4].to_vec())), Flow::Continue));
    assert!(matches!(conn.next_record(), Ok(None)));
    assert!(matches!(
        conn.on_read(ReadEvent::End),
        Flow::Close(Err(IngestError::Deserialize(DecodeError::Truncated)))
    ));
}

#[test]
fn forward_outcomes() {
    assert!(after_forward(Ok(Ok(()))).is_ok());
    assert!(matches!(
        after_forward(Err(CqrsError::ChannelClosed)),
        Err(IngestError::Internal(CqrsError::ChannelClosed))
    ));
    let refused = StorageError::UnknownStorageType { name: "x".to_owned() };
    match after_forward(Ok(Err(refused.clone()))) {
        Err(IngestError::Storage(e)) => assert_eq!(e, refused),
        _ => panic!("storage error lost"),
    }
}

#[test]
fn dispatch_step_outcomes() {
    assert_eq!(step_outcome(true, true), Ok(()));
    assert_eq!(step_outcome(true, false), Err(CqrsError::SenderUnavailable));
    assert_eq!(step_outcome(false, false), Err(CqrsError::ChannelClosed));
}

#[test]
fn datagram_to_query_end_to_end() {
    let mut engine = init(&StorageConfig::InMemory, DupeStrategy::Merge).unwrap();
    let datagram = encode_status(&minimal());
    assert_eq!(datagram, MINIMAL_CBOR);
    let st = decode_datagram(&datagram).unwrap();
    assert_eq!(st, minimal());
    assert_eq!(on_command(&mut engine, StorageCommand::PersistStatus(st)), Ok(()));
    let query = StorageQuery::GetStatuses(GetStatuses {
        source_id: SourceId(0x0aaec05a_0e7d_4fd5_abc0_0ba69e3cfe11),
        timestamps: TimeRange {
            start: TimeBound::Included(1627364700),
            end: TimeBound::Excluded(1627364800),
        },
    });
    assert_eq!(on_query(&engine, &query).unwrap(), vec![minimal()]);
}

use geo_track::data::{Real, SourceId, Status};
use geo_track::dispatch::Envelope;
use geo_track::storage::{
    init, on_command, on_query, serve, DupeStrategy, GetStatuses, MemoryStorage, StorageCommand,
    StorageConfig, StorageEngine, StorageError, StorageQuery, TimeBound, TimeRange,
};

fn status(src: u128, ts: i64) -> Status {
    Status { source_id: SourceId(src), timestamp: ts, position: None, bearing: None, speed: None }
}

fn num(v: f64) -> Real {
    Real { bits: v.to_bits() }
}

fn range(start: TimeBound, end: TimeBound) -> TimeRange {
    TimeRange { start, end }
}

fn stamps(v: &[Status]) -> Vec<i64> {
    v.iter().map(|s| s.timestamp).collect()
}

fn twice(strategy: DupeStrategy) -> Status {
    let mut v1 = status(1, 100);
    v1.bearing = Some(num(1.0));
    v1.speed = Some(num(3.0));
    let mut v2 = status(1, 100);
    v2.speed = Some(num(4.0));
    let mut store = MemoryStorage::new(strategy);
    store.persist_status(v1).unwrap();
    store.persist_status(v2).unwrap();
    let all = store.get_statuses(SourceId(1), &range(TimeBound::Unbounded, TimeBound::Unbounded)).unwrap();
    assert_eq!(all.len(), 1);
    all[0]
}

#[test]
fn dedup_drop_keeps_first() {
    let kept = twice(DupeStrategy::Drop);
    assert_eq!(kept.bearing, Some(num(1.0)));
    assert_eq!(kept.speed, Some(num(3.0)));
}

#[test]
fn dedup_overwrite_keeps_last() {
    let kept = twice(DupeStrategy::Overwrite);
    assert_eq!(kept.bearing, None);
    assert_eq!(kept.speed, Some(num(4.0)));
}

#[test]
fn dedup_merge_combines_fields() {
    let kept = twice(DupeStrategy::Merge);
    assert_eq!(kept.bearing, Some(num(1.0)));
    assert_eq!(kept.speed, Some(num(4.0)));
}

fn store_10_20_30() -> MemoryStorage {
    let mut store = MemoryStorage::new(DupeStrategy::Merge);
    for ts in [30, 10, 20] {
        store.persist_status(status(5, ts)).unwrap();
    }
    store.persist_status(status(4, 15)).unwrap();
    store.persist_status(status(6, 15)).unwrap();
    store
}

#[test]
fn range_half_open() {
    let store = store_10_20_30();
    let r = store
        .get_statuses(SourceId(5), &range(TimeBound::Included(15), TimeBound::Excluded(30)))
        .unwrap();
    assert_eq!(stamps(&r), vec![20]);
}

#[test]
fn range_closed_in_ascending_order() {
    let store = store_10_20_30();
    let r = store
        .get_statuses(SourceId(5), &range(TimeBound::Included(10), TimeBound::Included(30)))
        .unwrap();
    assert_eq!(stamps(&r), vec![10, 20, 30]);
    assert!(r.iter().all(|s| s.source_id == SourceId(5)));
    let r = store
        .get_statuses(SourceId(5), &range(TimeBound::Excluded(10), TimeBound::Unbounded))
        .unwrap();
    assert_eq!(stamps(&r), vec![20, 30]);
}

#[test]
fn range_unknown_source_is_empty() {
    let store = store_10_20_30();
    let r = store
        .get_statuses(SourceId(99), &range(TimeBound::Unbounded, TimeBound::Unbounded))
        .unwrap();
    assert!(r.is_empty());
}

#[test]
fn parse_dupe_strategy() {
    assert_eq!(DupeStrategy::parse("drop"), Ok(DupeStrategy::Drop));
    assert_eq!("merge".parse::<DupeStrategy>(), Ok(DupeStrategy::Merge));
    assert_eq!(DupeStrategy::parse("overwrite"), Ok(DupeStrategy::Overwrite));
    assert_eq!(
        DupeStrategy::parse("Drop"),
        Err(StorageError::UnknownDupeStrategy { name: "Drop".to_owned() })
    );
    assert_eq!(
        DupeStrategy::parse(""),
        Err(StorageError::UnknownDupeStrategy { name: String::new() })
    );
}

#[test]
fn parse_storage_config() {
    assert_eq!(StorageConfig::parse("memory"), Ok(StorageConfig::InMemory));
    assert_eq!(
        "sled".parse::<StorageConfig>(),
        Err(StorageError::StorageNotCompiled { name: "sled".to_owned() })
    );
    assert_eq!(
        StorageConfig::parse("sled:/var/db"),
        Err(StorageError::StorageNotCompiled { name: "sled:/var/db".to_owned() })
    );
    assert_eq!(
        StorageConfig::parse("sledge"),
        Err(StorageError::UnknownStorageType { name: "sledge".to_owned() })
    );
    assert_eq!(
        StorageConfig::parse("memory "),
        Err(StorageError::UnknownStorageType { name: "memory ".to_owned() })
    );
}

#[test]
fn engine_serves_commands_and_queries() {
    let mut engine: StorageEngine = init(&StorageConfig::InMemory, DupeStrategy::Drop).unwrap();
    let query = StorageQuery::GetStatuses(GetStatuses {
        source_id: SourceId(3),
        timestamps: range(TimeBound::Included(0), TimeBound::Included(100)),
    });
    assert!(on_query(&engine, &query).unwrap().is_empty());
    assert_eq!(on_command(&mut engine, StorageCommand::PersistStatus(status(3, 50))), Ok(()));
    assert_eq!(on_command(&mut engine, StorageCommand::PersistStatus(status(3, 150))), Ok(()));
    assert_eq!(stamps(&on_query(&engine, &query).unwrap()), vec![50]);
    assert_eq!(stamps(&engine.get_statuses(SourceId(3), &range(TimeBound::Unbounded, TimeBound::Unbounded)).unwrap()), vec![50, 150]);
}

#[test]
fn serve_answers_in_kind() {
    let mut engine = init(&StorageConfig::InMemory, DupeStrategy::Overwrite).unwrap();
    match serve(&mut engine, Envelope::Command(StorageCommand::PersistStatus(status(8, 1)))) {
        Envelope::Command(res) => assert_eq!(res, Ok(())),
        Envelope::Query(_) => panic!("a command got a query reply"),
    }
    let q = StorageQuery::GetStatuses(GetStatuses {
        source_id: SourceId(8),
        timestamps: range(TimeBound::Unbounded, TimeBound::Excluded(2)),
    });
    match serve(&mut engine, Envelope::Query(q)) {
        Envelope::Query(res) => assert_eq!(stamps(&res.unwrap()), vec![1]),
        Envelope::Command(_) => panic!("a query got a command reply"),
    }
}

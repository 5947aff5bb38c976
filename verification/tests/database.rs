use entity_store::entity_db::{
    ApplicationId, ComponentPath, EntityDb, IngestionStatistics, LatencySample, SetStoreInfo,
    StoreInfo, MAX_LATENCY_SAMPLES,
};
use entity_store::gc::{GarbageCollectionOptions, GarbageCollectionTarget, UNBOUNDED_NANOS};
use entity_store::ingest::{AddError, BlueprintActivationCommand, LogMsg};
use entity_store::names::{
    InternedStr, RowId, StoreId, StoreKind, TimeInt, TimeType, Timeline, TIME_STATIC,
};
use entity_store::row::{CellValue, DataCell, DataRow, DataType, TimePoint};
use entity_store::store::{LatestAtQuery, WriteError};
use entity_store::times::{TimeCount, TimesPerTimeline};
use entity_store::upkeep::{time_filter, TimeReal, TIME_REAL_ONE};
use re_log_types::EntityPath;

const CLEAR: &str = "rerun.components.ClearIsRecursive";

fn frame() -> Timeline {
    Timeline::new("frame", TimeType::Sequence)
}

fn log_time() -> Timeline {
    Timeline::new("log_time", TimeType::Time)
}

fn time(value: i64) -> TimeInt {
    TimeInt::new_temporal(value)
}

fn store_id(name: &str) -> StoreId {
    StoreId::from_string(StoreKind::Recording, name.to_owned())
}

fn db() -> EntityDb {
    EntityDb::new(store_id("test"))
}

fn info(name: &str) -> StoreInfo {
    StoreInfo {
        application_id: ApplicationId { id: "app".to_owned() },
        store_id: store_id(name),
        cloned_from: None,
        is_official_example: true,
        started: 1234,
        store_source: re_log_types::StoreSource::Viewer,
    }
}

fn cell(name: &'static str, value: CellValue) -> DataCell {
    let datatype = DataType { id: 7, empty_size_bytes: 8 };
    DataCell::new(InternedStr::new(name), 1, 32, datatype, value)
}

fn x(value: u64) -> DataCell {
    cell("x", CellValue::Other(value))
}

fn at(times: &[(Timeline, i64)]) -> TimePoint {
    let mut timepoint = TimePoint::timeless();
    for (timeline, value) in times {
        timepoint.put_latest(*timeline, time(*value));
    }
    timepoint
}

fn row(id: u64, path: &str, times: &[(Timeline, i64)], cells: Vec<DataCell>) -> DataRow {
    DataRow::from_cells(RowId::from_parts(id, 0), at(times), EntityPath::from(path), cells).unwrap()
}

fn value_of(cell: &DataCell) -> u64 {
    match &*cell.value {
        CellValue::Other(value) => *value,
        _ => panic!("not a plain value"),
    }
}

/// The value of the latest cell of `x` that has one instance.
fn latest_x(db: &EntityDb, path: &str, value: i64) -> Option<u64> {
    let query = LatestAtQuery::new(frame(), time(value));
    db.latest_at_component(&EntityPath::from(path), &query, &InternedStr::new("x"))
        .map(|(_, _, cell)| value_of(&cell))
}

/// How many instances the latest cell of `x` has, however many.
fn instances_of_x(db: &EntityDb, path: &str, value: i64) -> Option<u32> {
    let query = LatestAtQuery::new(frame(), time(value));
    db.data_store()
        .latest_at(&query, &EntityPath::from(path), &InternedStr::new("x"))
        .map(|(_, _, cell)| cell.num_instances())
}

fn counts(times: &TimesPerTimeline, timeline: &Timeline) -> Vec<(i64, u64)> {
    match times.position(timeline) {
        Some(i) => {
            times.timelines[i].times.iter().map(|count| (count.time.as_i64(), count.count)).collect()
        }
        None => vec![],
    }
}

fn everything(protect_latest: usize) -> GarbageCollectionOptions {
    GarbageCollectionOptions {
        target: GarbageCollectionTarget::Everything,
        time_budget_nanos: UNBOUNDED_NANOS,
        protect_latest,
        purge_empty_tables: false,
        dont_protect: vec![],
        enable_batching: false,
    }
}

// --- Adding data.

#[test]
fn a_new_database_knows_nothing() {
    let db = db();
    assert!(db.is_empty());
    assert_eq!(db.num_rows(), 0);
    assert_eq!(db.latest_row_id(), None);
    assert!(db.entity_paths().is_empty());
    assert!(db.timelines().is_empty());
    assert!(db.store_info_msg().is_none());
    assert!(db.store_info().is_none());
    assert!(db.app_id().is_none());
    assert!(db.cloned_from().is_none());
    assert!(db.sort_key().is_none());
    assert!(db.data_source.is_none());
    assert_eq!(db.store_kind(), StoreKind::Recording);
    assert!(db.store_id().is(&store_id("test")));
    assert_eq!(db.num_static_messages(), 0);
    assert!(db.is_known_entity(&EntityPath::root()));
    assert!(!db.is_logged_entity(&EntityPath::root()));
    assert!(db.time_histogram(&frame()).is_none());
}

#[test]
fn data_can_be_read_back() {
    let mut db = db();
    db.add_data_row(row(5, "a/b", &[(frame(), 10)], vec![x(1)])).unwrap();
    db.add_data_row(row(3, "a/b", &[(frame(), 20)], vec![x(2)])).unwrap();
    db.add_data_row(row(4, "c", &[], vec![x(3)])).unwrap();
    assert_eq!(latest_x(&db, "a/b", 9), None);
    assert_eq!(latest_x(&db, "a/b", 10), Some(1));
    assert_eq!(latest_x(&db, "a/b", 25), Some(2));
    assert_eq!(latest_x(&db, "c", 0), Some(3));
    assert_eq!(db.num_rows(), 3);
    assert!(!db.is_empty());
    // The highest id, not the last one.
    assert_eq!(db.latest_row_id(), Some(RowId::from_parts(5, 0)));
    assert!(db.store().id().is(&store_id("test")));
    assert_eq!(db.generation().insert_id, 3);
    assert_eq!(db.ingestion_stats().samples.len(), 3);
}

#[test]
fn only_single_instances_are_read_as_a_component() {
    let mut db = db();
    let datatype = DataType { id: 7, empty_size_bytes: 8 };
    let two = DataCell::new(InternedStr::new("x"), 2, 64, datatype, CellValue::Other(1));
    db.add_data_row(row(1, "a", &[(frame(), 1)], vec![x(1)])).unwrap();
    db.add_data_row(row(2, "a", &[(frame(), 2)], vec![two])).unwrap();
    assert_eq!(latest_x(&db, "a", 1), Some(1));
    assert_eq!(latest_x(&db, "a", 2), None);
    let query = LatestAtQuery::new(frame(), time(1));
    let quiet = db.latest_at_component_quiet(&EntityPath::from("a"), &query, &InternedStr::new("x"));
    assert_eq!(quiet.unwrap().0.as_i64(), 1);
}

#[test]
fn entities_are_known_by_path() {
    let mut db = db();
    db.add_data_row(row(1, "world/points", &[(frame(), 1)], vec![x(1)])).unwrap();
    db.add_data_row(row(2, "a10", &[(frame(), 1)], vec![x(1)])).unwrap();
    db.add_data_row(row(3, "a9", &[(frame(), 1)], vec![x(1)])).unwrap();
    assert!(db.is_known_entity(&EntityPath::from("world")));
    assert!(db.is_known_entity(&EntityPath::from("world/points")));
    assert!(!db.is_known_entity(&EntityPath::from("world/lines")));
    assert!(!db.is_logged_entity(&EntityPath::from("world")));
    assert!(db.is_logged_entity(&EntityPath::from("world/points")));
    // Sorted, numbers by their value.
    let paths: Vec<String> = db.entity_paths().iter().map(|path| path.to_string()).collect();
    assert_eq!(paths, vec!["/a9", "/a10", "/world/points"]);
    let path = EntityPath::from("a9");
    assert_eq!(db.entity_path_from_hash(path.hash64()), Some(&path));
    assert_eq!(db.entity_path_from_hash(EntityPath::from("b").hash64()), None);
    assert!(db.tree().subtree(&EntityPath::from("world/points")).is_some());
    let visited = db.tree().visit_children_recursively();
    let visited: Vec<String> = visited.iter().map(|entity| entity.path.to_string()).collect();
    assert_eq!(visited, vec!["/", "/a9", "/a10", "/world", "/world/points"]);
}

#[test]
fn the_closest_ancestor_answers() {
    let mut db = db();
    db.add_data_row(row(1, "a", &[(frame(), 1)], vec![x(1)])).unwrap();
    db.add_data_row(row(2, "a/b/c", &[(frame(), 5)], vec![x(2)])).unwrap();
    let find = |db: &EntityDb, path: &str, value: i64| {
        let query = LatestAtQuery::new(frame(), time(value));
        db.latest_at_component_at_closest_ancestor(
            &EntityPath::from(path),
            &query,
            &InternedStr::new("x"),
        )
        .map(|(path, (_, _, cell))| (path.to_string(), value_of(&cell)))
    };
    assert_eq!(find(&db, "a/b/c/d", 9), Some(("/a/b/c".to_owned(), 2)));
    assert_eq!(find(&db, "a/b/c/d", 4), Some(("/a".to_owned(), 1)));
    assert_eq!(find(&db, "a", 4), Some(("/a".to_owned(), 1)));
    assert_eq!(find(&db, "a/b", 0), None);
    assert_eq!(find(&db, "z", 9), None);
    db.add_data_row(row(3, "/", &[], vec![x(3)])).unwrap();
    assert_eq!(find(&db, "z", 9), Some(("/".to_owned(), 3)));
}

#[test]
fn components_are_static_or_not() {
    let mut db = db();
    db.add_data_row(row(1, "a", &[(frame(), 1)], vec![x(1)])).unwrap();
    db.add_data_row(row(2, "a", &[], vec![cell("y", CellValue::Other(2))])).unwrap();
    let is_static = |db: &EntityDb, path: &str, name: &'static str| {
        db.is_component_static(&ComponentPath {
            entity_path: EntityPath::from(path),
            component_name: InternedStr::new(name),
        })
    };
    assert_eq!(is_static(&db, "a", "x"), Some(false));
    assert_eq!(is_static(&db, "a", "y"), Some(true));
    assert_eq!(is_static(&db, "a", "z"), None);
    assert_eq!(is_static(&db, "b", "x"), None);
    assert_eq!(db.num_static_messages(), 1);
}

#[test]
fn rows_with_a_taken_id_get_another_one() {
    let mut db = db();
    db.add_data_row(row(1, "a", &[(frame(), 1)], vec![x(1)])).unwrap();
    db.add_data_row(row(1, "a", &[(frame(), 2)], vec![x(2)])).unwrap();
    assert_eq!(latest_x(&db, "a", 1), Some(1));
    assert_eq!(latest_x(&db, "a", 2), Some(2));
    assert_eq!(db.num_rows(), 2);
    assert_eq!(db.ingestion_stats().samples.len(), 2);
}

#[test]
fn rows_that_do_not_fit_are_refused() {
    let mut db = db();
    let datatype = DataType { id: 7, empty_size_bytes: 8 };
    let huge = DataCell::new(InternedStr::new("x"), 1, u64::MAX, datatype, CellValue::Other(1));
    let rows: Vec<Result<DataRow, ()>> = vec![
        Ok(row(1, "a", &[(frame(), 1)], vec![x(1)])),
        Ok(row(2, "b", &[(frame(), 1)], vec![huge])),
        Ok(row(3, "c", &[(frame(), 1)], vec![x(3)])),
    ];
    let before = db.generation();
    let id = db.store_id().clone();
    assert!(matches!(db.add(LogMsg::Data(id, rows)), Err(AddError::Write(WriteError::Full))));
    // Those before it were added, those after it were not.
    assert_eq!(latest_x(&db, "a", 1), Some(1));
    assert_eq!(latest_x(&db, "b", 1), None);
    assert_eq!(latest_x(&db, "c", 1), None);
    assert_eq!(db.generation().insert_id, before.insert_id + 1);
    // The path of the one that was refused is known.
    let paths: Vec<String> = db.entity_paths().iter().map(|path| path.to_string()).collect();
    assert_eq!(paths, vec!["/a", "/b"]);
}

// --- Times.

#[test]
fn times_are_counted() {
    let mut db = db();
    let y = || cell("y", CellValue::Other(0));
    db.add_data_row(row(1, "a", &[(frame(), 20), (log_time(), 7)], vec![x(1), y()])).unwrap();
    db.add_data_row(row(2, "b", &[(frame(), 10)], vec![x(1)])).unwrap();
    db.add_data_row(row(3, "b", &[(frame(), 20)], vec![x(1)])).unwrap();
    db.add_data_row(row(4, "c", &[], vec![x(1)])).unwrap();
    assert_eq!(db.timelines(), vec![frame(), log_time()]);
    assert_eq!(counts(db.times_per_timeline(), &frame()), vec![(10, 1), (20, 2)]);
    assert_eq!(counts(db.times_per_timeline(), &log_time()), vec![(7, 1)]);
    // Here every cell counts.
    let histogram = db.time_histogram(&frame()).unwrap();
    assert_eq!(
        histogram.times,
        vec![TimeCount { time: time(10), count: 1 }, TimeCount { time: time(20), count: 3 }],
    );
}

#[test]
fn collected_rows_no_longer_count() {
    let mut db = db();
    for i in 1..=4 {
        db.add_data_row(row(i, "a", &[(frame(), i as i64)], vec![x(i)])).unwrap();
    }
    let latest_row_id = db.latest_row_id();
    db.gc(&everything(1));
    assert_eq!(counts(db.times_per_timeline(), &frame()), vec![(4, 1)]);
    assert_eq!(db.time_histogram(&frame()).unwrap().times.len(), 1);
    assert_eq!(latest_x(&db, "a", 9), Some(4));
    assert_eq!(latest_x(&db, "a", 3), None);
    assert_eq!(db.latest_row_id(), latest_row_id);
    assert_eq!(db.generation().gc_id, 1);
    assert_eq!(db.num_rows(), 1);

    db.gc(&everything(0));
    assert_eq!(counts(db.times_per_timeline(), &frame()), vec![]);
    assert_eq!(db.latest_row_id(), latest_row_id);
    assert!(db.is_logged_entity(&EntityPath::from("a")));
    assert!(db.is_empty());
}

#[test]
fn adding_and_removing_leaves_no_trace_in_the_counts() {
    let mut db = db();
    db.add_data_row(row(1, "a", &[(frame(), 5)], vec![x(1)])).unwrap();
    let before = counts(db.times_per_timeline(), &frame());
    // An older row, which is the first to go.
    db.add_data_row(row(0, "a", &[(frame(), 3)], vec![x(2)])).unwrap();
    assert_eq!(counts(db.times_per_timeline(), &frame()), vec![(3, 1), (5, 1)]);
    db.gc(&everything(1));
    assert_eq!(counts(db.times_per_timeline(), &frame()), before);
}

#[test]
fn memory_is_freed_oldest_first() {
    let mut db = db();
    for i in 1..=4 {
        db.add_data_row(row(i, "a", &[(frame(), i as i64)], vec![x(i)])).unwrap();
    }
    let events = db.purge_at_least(1);
    assert_eq!(events.len(), 1);
    assert_eq!(events[0].diff.row_id.nanoseconds_since_epoch(), 1);
    assert_eq!(latest_x(&db, "a", 1), None);
    assert_eq!(latest_x(&db, "a", 2), Some(2));
    assert_eq!(latest_x(&db, "a", 9), Some(4));
    // The last one stays, however much is asked for.
    db.purge_at_least(1 << 40);
    assert_eq!(latest_x(&db, "a", 9), Some(4));
    assert_eq!(db.num_rows(), 1);
}

#[test]
fn all_but_the_latest_row_goes() {
    let mut db = db();
    db.add_data_row(row(1, "a", &[(frame(), 1)], vec![x(1)])).unwrap();
    db.add_data_row(row(2, "a", &[(frame(), 2)], vec![x(2)])).unwrap();
    db.add_data_row(row(3, "b", &[(frame(), 1)], vec![x(3)])).unwrap();
    db.add_data_row(row(4, "b", &[(frame(), 2)], vec![cell(CLEAR, CellValue::ClearIsRecursive(false))]))
        .unwrap();
    assert_eq!(instances_of_x(&db, "b", 2), Some(0));
    db.gc_everything_but_the_latest_row();
    assert_eq!(latest_x(&db, "a", 9), Some(2));
    assert_eq!(latest_x(&db, "a", 1), None);
    // What was cleared leaves nothing behind, nor does the clear.
    assert_eq!(instances_of_x(&db, "b", 9), None);
    let query = LatestAtQuery::new(frame(), time(9));
    let clear = db.data_store().latest_at(&query, &EntityPath::from("b"), &InternedStr::new(CLEAR));
    assert!(clear.is_none());
}

// --- Clearing.

#[test]
fn a_clear_empties_components() {
    let mut db = db();
    db.add_data_row(row(1, "a", &[(frame(), 1)], vec![x(1)])).unwrap();
    db.add_data_row(row(2, "a/b", &[(frame(), 1)], vec![x(2)])).unwrap();
    db.add_data_row(row(3, "a", &[(frame(), 5)], vec![cell(CLEAR, CellValue::ClearIsRecursive(false))]))
        .unwrap();
    assert_eq!(instances_of_x(&db, "a", 4), Some(1));
    assert_eq!(instances_of_x(&db, "a", 5), Some(0));
    // Only the entity itself.
    assert_eq!(instances_of_x(&db, "a/b", 5), Some(1));
    // What comes later is not cleared.
    db.add_data_row(row(4, "a", &[(frame(), 6)], vec![x(4)])).unwrap();
    assert_eq!(latest_x(&db, "a", 6), Some(4));
    // The clear itself is never cleared.
    let query = LatestAtQuery::new(frame(), time(5));
    let clear = db.data_store().latest_at(&query, &EntityPath::from("a"), &InternedStr::new(CLEAR));
    assert_eq!(clear.unwrap().2.num_instances(), 1);
}

#[test]
fn a_recursive_clear_empties_everything_below() {
    let mut db = db();
    db.add_data_row(row(1, "a", &[(frame(), 1)], vec![x(1)])).unwrap();
    db.add_data_row(row(2, "a/b", &[(frame(), 1)], vec![x(2)])).unwrap();
    db.add_data_row(row(3, "a/b/c", &[(frame(), 1)], vec![x(3)])).unwrap();
    db.add_data_row(row(4, "d", &[(frame(), 1)], vec![x(4)])).unwrap();
    db.add_data_row(row(5, "a", &[(frame(), 5)], vec![cell(CLEAR, CellValue::ClearIsRecursive(true))]))
        .unwrap();
    for path in ["a", "a/b", "a/b/c"] {
        assert_eq!(instances_of_x(&db, path, 4), Some(1), "{path}");
        assert_eq!(instances_of_x(&db, path, 5), Some(0), "{path}");
    }
    assert_eq!(instances_of_x(&db, "d", 5), Some(1));
    // One row more for each entity that was cleared; only the clear itself was ingested.
    assert_eq!(db.generation().insert_id, 8);
    assert_eq!(db.ingestion_stats().samples.len(), 5);
    assert_eq!(counts(db.times_per_timeline(), &frame()), vec![(1, 4), (5, 4)]);
}

#[test]
fn static_data_is_cleared_by_a_static_clear() {
    let mut db = db();
    db.add_data_row(row(1, "a", &[], vec![x(1)])).unwrap();
    db.add_data_row(row(2, "a", &[(frame(), 5)], vec![cell(CLEAR, CellValue::ClearIsRecursive(false))]))
        .unwrap();
    assert_eq!(instances_of_x(&db, "a", 9), Some(1));
    db.add_data_row(row(3, "a", &[], vec![cell(CLEAR, CellValue::ClearIsRecursive(false))])).unwrap();
    assert_eq!(instances_of_x(&db, "a", 9), Some(0));
    let query = LatestAtQuery::new(frame(), time(9));
    let found = db.data_store().latest_at(&query, &EntityPath::from("a"), &InternedStr::new("x"));
    assert_eq!(found.unwrap().0.as_i64(), TIME_STATIC);
}

// --- Messages.

#[test]
fn messages_are_taken_in() {
    let mut db = db();
    let id = db.store_id().clone();
    db.add::<()>(LogMsg::SetStoreInfo(SetStoreInfo { row_id: RowId::zero(), info: info("test") })).unwrap();
    assert_eq!(db.app_id().unwrap().id, "app");
    assert_eq!(db.store_info().unwrap().started, 1234);
    assert_eq!(db.sort_key(), Some(("app", 1234)));
    assert!(!db.is_empty());
    assert_eq!(db.num_rows(), 0);
    db.add::<()>(LogMsg::Data(id, vec![Ok(row(1, "a", &[(frame(), 1)], vec![x(1)]))])).unwrap();
    assert_eq!(latest_x(&db, "a", 1), Some(1));
    let before = db.generation();
    db.add::<()>(LogMsg::BlueprintActivationCommand(BlueprintActivationCommand {
        blueprint_id: store_id("other"),
        make_active: true,
        make_default: false,
    }))
    .unwrap();
    assert_eq!(db.generation(), before);
}

#[test]
fn messages_are_put_together_again() {
    let mut db = db();
    let data: Vec<Result<u8, u8>> = vec![Ok(1), Ok(2)];
    let messages = db.to_messages(data).unwrap();
    assert_eq!(messages.len(), 2);
    db.set_store_info(SetStoreInfo { row_id: RowId::zero(), info: info("test") });
    let data: Vec<Result<u8, u8>> = vec![Ok(1), Ok(2)];
    let messages = db.to_messages(data).unwrap();
    assert_eq!(messages.len(), 3);
    assert!(matches!(&messages[0], LogMsg::SetStoreInfo(msg) if msg.info.started == 1234));
    assert!(matches!(&messages[1], LogMsg::Data(id, 1) if id.is(db.store_id())));
    assert!(matches!(&messages[2], LogMsg::Data(_, 2)));

    let data: Vec<Result<u8, u8>> = vec![Ok(1), Err(7), Err(8)];
    assert_eq!(db.to_messages(data).unwrap_err(), 7);
}

#[test]
fn a_blueprint_is_activated_by_its_messages() {
    let blueprint = EntityDb::new(StoreId::from_string(StoreKind::Blueprint, "bp".to_owned()));
    let data: Vec<Result<u8, u8>> = vec![Ok(1)];
    let messages = blueprint.to_messages(data).unwrap();
    assert_eq!(messages.len(), 2);
    match &messages[1] {
        LogMsg::BlueprintActivationCommand(command) => {
            assert!(command.blueprint_id.is(blueprint.store_id()));
            assert!(command.make_active && command.make_default);
        }
        _ => panic!("not a command"),
    }
}

#[test]
fn selections_cover_whole_times() {
    let half = TIME_REAL_ONE / 2;
    let real = |bits| TimeReal { bits };
    let filter = |min, max| {
        let (timeline, range) = time_filter(Some((frame(), (real(min), real(max))))).unwrap();
        assert_eq!(timeline, frame());
        (range.min.as_i64(), range.max.as_i64())
    };
    assert_eq!(filter(3 * TIME_REAL_ONE + half, 5 * TIME_REAL_ONE + half), (3, 6));
    assert_eq!(filter(3 * TIME_REAL_ONE, 5 * TIME_REAL_ONE), (3, 5));
    assert_eq!(filter(-3 * TIME_REAL_ONE - half, -2 * TIME_REAL_ONE - half), (-4, -2));
    assert_eq!(filter(-1, 1), (-1, 1));
    assert_eq!(filter(i128::MIN, i128::MAX), (-i64::MAX, i64::MAX));
    assert!(time_filter(None).is_none());
}

// --- Copies.

#[test]
fn rows_are_given_back() {
    let mut db = db();
    let y = || cell("y", CellValue::Other(9));
    db.add_data_row(row(2, "a", &[(frame(), 20), (log_time(), 7)], vec![x(1), y()])).unwrap();
    db.add_data_row(row(1, "b", &[(frame(), 10)], vec![x(2)])).unwrap();
    db.add_data_row(row(3, "c", &[], vec![x(3)])).unwrap();
    let rows = db.to_rows();
    let ids: Vec<u64> = rows.iter().map(|row| row.row_id().nanoseconds_since_epoch()).collect();
    assert_eq!(ids, vec![1, 2, 3]);
    assert_eq!(rows[0].entity_path, EntityPath::from("b"));
    assert_eq!(value_of(&rows[0].cells[0]), 2);
    assert_eq!(rows[1].timepoint.times, vec![(frame(), time(20)), (log_time(), time(7))]);
    assert_eq!(rows[1].cells.len(), 2);
    assert!(rows[2].timepoint.is_static());

    db.gc(&everything(0));
    let rows = db.to_rows();
    assert_eq!(rows.len(), 1);
    assert_eq!(rows[0].row_id(), RowId::from_parts(3, 0));
}

#[test]
fn a_clone_holds_the_same_data() {
    let mut db = db();
    db.set_store_info(SetStoreInfo { row_id: RowId::zero(), info: info("test") });
    db.data_source = Some(re_smart_channel::SmartChannelSource::Sdk);
    for i in 1..=4 {
        db.add_data_row(row(i, "a", &[(frame(), i as i64)], vec![x(i)])).unwrap();
    }
    db.gc(&everything(2));
    let clone = db.clone_with_new_id(store_id("clone")).unwrap();
    assert!(clone.store_id().is(&store_id("clone")));
    assert!(clone.cloned_from().unwrap().is(&store_id("test")));
    assert!(clone.data_source.is_none());
    assert_eq!(clone.app_id().unwrap().id, "app");
    assert_eq!(clone.store_info().unwrap().store_source, re_log_types::StoreSource::Viewer);
    assert_eq!(clone.latest_row_id(), db.latest_row_id());
    assert_eq!(clone.last_modified_at(), db.last_modified_at());
    assert_eq!(clone.num_rows(), 2);
    for value in 0..6 {
        assert_eq!(latest_x(&clone, "a", value), latest_x(&db, "a", value));
    }
    assert_eq!(clone.to_rows().len(), db.to_rows().len());
}

#[test]
fn a_database_is_made_of_rows() {
    let rows = vec![
        row(1, "a", &[(frame(), 1)], vec![x(1)]),
        row(2, "a", &[(frame(), 2)], vec![x(2)]),
    ];
    let db = EntityDb::from_info_and_rows(info("made"), rows).unwrap();
    assert!(db.store_id().is(&store_id("made")));
    assert_eq!(db.store_info().unwrap().started, 1234);
    assert!(db.store_info().unwrap().is_official_example);
    assert_eq!(latest_x(&db, "a", 1), Some(1));
    assert_eq!(db.latest_row_id(), Some(RowId::from_parts(2, 0)));

    let datatype = DataType { id: 7, empty_size_bytes: 8 };
    let huge = DataCell::new(InternedStr::new("x"), 1, u64::MAX, datatype, CellValue::Other(1));
    let refused = EntityDb::from_info_and_rows(info("made"), vec![row(1, "a", &[(frame(), 1)], vec![huge])]);
    assert_eq!(refused.unwrap_err(), WriteError::Full);
}

// --- Latency.

#[test]
fn latency_is_measured_from_the_row_id() {
    let row_id = RowId::from_parts(1000, 5);
    let mut stats = IngestionStatistics::new(store_id("test"));
    stats.on_new_row_id(Some(1500), row_id);
    stats.on_new_row_id(Some(1000), row_id);
    stats.on_new_row_id(Some(999), row_id);
    stats.on_new_row_id(None, row_id);
    assert_eq!(
        stats.take_samples(),
        vec![
            LatencySample { arrived_nanos: 1500, nanos_since_log: 500 },
            LatencySample { arrived_nanos: 1000, nanos_since_log: 0 },
        ],
    );
    assert!(stats.samples.is_empty());

    let mut db = db();
    db.add_data_row(row(1, "a", &[(frame(), 1)], vec![x(1)])).unwrap();
    let sample = db.stats.take_samples()[0];
    assert!(sample.arrived_nanos > 1_000_000_000_000_000_000);
    assert_eq!(sample.nanos_since_log, sample.arrived_nanos - 1);
}

#[test]
fn only_the_latest_samples_are_kept() {
    let mut stats = IngestionStatistics::new(store_id("test"));
    for now in 0..2000 {
        stats.on_new_row_id(Some(now), RowId::from_parts(0, 0));
    }
    assert_eq!(stats.samples.len(), MAX_LATENCY_SAMPLES);
    assert_eq!(stats.samples[0].arrived_nanos, 2000 - MAX_LATENCY_SAMPLES as u64);
    assert_eq!(stats.samples[MAX_LATENCY_SAMPLES - 1].arrived_nanos, 1999);
}

#[test]
fn data_changes_when_it_is_modified() {
    let mut db = db();
    let created = *db.last_modified_at();
    let first: Result<DataRow, &str> = Ok(row(1, "a", &[(frame(), 1)], vec![x(1)]));
    db.add_data_table(vec![first]).unwrap();
    assert!(*db.last_modified_at() >= created);
    assert_eq!(latest_x(&db, "a", 1), Some(1));

    // The rows before one that could not be decoded are added, those after it are not.
    let modified = *db.last_modified_at();
    let rows = vec![
        Ok(row(2, "b", &[(frame(), 1)], vec![x(2)])),
        Err("garbled"),
        Ok(row(3, "c", &[(frame(), 1)], vec![x(3)])),
        Err("never looked at"),
    ];
    assert!(matches!(db.add_data_table(rows), Err(AddError::Decode("garbled"))));
    assert_eq!(latest_x(&db, "b", 1), Some(2));
    assert_eq!(latest_x(&db, "c", 1), None);
    assert_eq!(*db.last_modified_at(), modified);

    // A row that cannot be written comes first if it is the first.
    let datatype = DataType { id: 7, empty_size_bytes: 8 };
    let huge = DataCell::new(InternedStr::new("x"), 1, u64::MAX, datatype, CellValue::Other(1));
    let rows = vec![Ok(row(4, "d", &[(frame(), 1)], vec![huge])), Err("garbled")];
    assert!(matches!(db.add_data_table(rows), Err(AddError::Write(WriteError::Full))));
    assert_eq!(*db.last_modified_at(), modified);
}

#[test]
fn the_latest_row_id_is_the_highest_in_the_store() {
    let mut db = db();
    db.add_data_row(row(1, "a", &[(frame(), 1)], vec![x(1)])).unwrap();
    assert_eq!(db.latest_row_id(), Some(RowId::from_parts(1, 0)));
    // The same id again is stored as a higher one.
    db.add_data_row(row(1, "a", &[(frame(), 2)], vec![x(2)])).unwrap();
    let latest = db.latest_row_id().unwrap();
    assert!(latest > RowId::from_parts(1, 0));
    let query = LatestAtQuery::new(frame(), time(2));
    let (_, stored, _) =
        db.data_store().latest_at(&query, &EntityPath::from("a"), &InternedStr::new("x")).unwrap();
    assert_eq!(stored, latest);

    // So do the rows that a clear adds.
    let clear = cell(CLEAR, CellValue::ClearIsRecursive(false));
    db.add_data_row(row(5, "a", &[(frame(), 5)], vec![clear])).unwrap();
    let highest = db.to_rows().iter().map(|row| row.row_id()).max();
    assert!(db.latest_row_id() > Some(RowId::from_parts(5, 0)));
    assert_eq!(db.latest_row_id(), highest);

    // What is refused is not in the store.
    let datatype = DataType { id: 7, empty_size_bytes: 8 };
    let huge = DataCell::new(InternedStr::new("x"), 1, u64::MAX, datatype, CellValue::Other(1));
    assert!(db.add_data_row(row(9, "b", &[(frame(), 1)], vec![huge])).is_err());
    assert_eq!(db.latest_row_id(), highest);
}

#[test]
fn paths_are_listed_in_natural_order() {
    let mut db = db();
    for (i, path) in ["image10", "a/c", "image2", "a", "B", "a/b/x"].iter().enumerate() {
        db.add_data_row(row(i as u64 + 1, path, &[(frame(), 1)], vec![x(1)])).unwrap();
        db.add_data_row(row(i as u64 + 101, path, &[(frame(), 2)], vec![x(1)])).unwrap();
    }
    let paths: Vec<String> = db.entity_paths().iter().map(|path| path.to_string()).collect();
    assert_eq!(paths, vec!["/a", "/a/b/x", "/a/c", "/B", "/image2", "/image10"]);
    db.gc(&everything(0));
    assert_eq!(db.entity_paths().len(), 6);
}

#[test]
fn rows_are_exported_by_time() {
    let mut db = db();
    db.add_data_row(row(1, "a", &[], vec![x(1)])).unwrap();
    db.add_data_row(row(2, "a", &[(frame(), 10), (log_time(), 1)], vec![x(2)])).unwrap();
    db.add_data_row(row(3, "b", &[(frame(), 20)], vec![x(3)])).unwrap();
    db.add_data_row(row(4, "b", &[(log_time(), 10)], vec![x(4)])).unwrap();
    let ids = |filter| -> Vec<u64> {
        db.rows_to_export(filter)
            .iter()
            .map(|row| row.row_id().nanoseconds_since_epoch())
            .collect()
    };
    assert_eq!(ids(None), vec![1, 2, 3, 4]);
    let range = |min, max| {
        let real = |value: i64| TimeReal { bits: i128::from(value) * TIME_REAL_ONE };
        time_filter(Some((frame(), (real(min), real(max)))))
    };
    assert_eq!(ids(range(10, 19)), vec![1, 2]);
    assert_eq!(ids(range(10, 20)), vec![1, 2, 3]);
    assert_eq!(ids(range(11, 19)), vec![1]);
}

#[test]
fn clears_write_upwards_and_in_order() {
    let mut db = db();
    for (i, path) in ["a/c10", "a/c9", "a", "a/b"].iter().enumerate() {
        db.add_data_row(row(i as u64 + 1, path, &[(frame(), 1)], vec![x(1)])).unwrap();
    }
    let clear = cell(CLEAR, CellValue::ClearIsRecursive(true));
    db.add_data_row(row(5, "a", &[(frame(), 2)], vec![clear])).unwrap();
    let rows = db.rows_to_export(None);
    // The clear itself, and then one row for each entity.
    let written: Vec<String> =
        rows.iter().skip(4).map(|row| row.entity_path.to_string()).collect();
    assert_eq!(written, vec!["/a", "/a", "/a/b", "/a/c9", "/a/c10"]);
    let ids: Vec<_> = rows.iter().skip(4).map(|row| row.row_id()).collect();
    assert!(ids.windows(2).all(|pair| pair[0] < pair[1]));
    assert_eq!(db.latest_row_id(), ids.last().copied());
}

use entity_store::gc::{
    is_out_of_time, GarbageCollectionOptions, GarbageCollectionTarget, UNBOUNDED_NANOS,
};
use entity_store::names::{
    InternedStr, RowId, StoreId, StoreKind, TimeInt, TimeType, Timeline, TIME_MAX, TIME_MIN,
    TIME_STATIC,
};
use entity_store::retry::{insert_row_with_retries, next_row_id, number_or_zero};
use entity_store::row::{
    CellValue, DataCell, DataRow, DataRowError, DataType, StoreDiffKind, StoreEvent, TimePoint,
};
use entity_store::stats::DataStoreStats;
use entity_store::store::{DataStore, DataStoreConfig, LatestAtQuery, WriteError};
use re_log_types::EntityPath;

const CELL_BYTES: u64 = 32;

fn frame() -> Timeline {
    Timeline::new("frame", TimeType::Sequence)
}

fn log_time() -> Timeline {
    Timeline::new("log_time", TimeType::Time)
}

fn datatype() -> DataType {
    DataType { id: 7, empty_size_bytes: 8 }
}

fn cell(name: &'static str, value: u64) -> DataCell {
    DataCell::new(InternedStr::new(name), 1, CELL_BYTES, datatype(), CellValue::Other(value))
}

fn at(times: &[(Timeline, i64)]) -> TimePoint {
    let mut timepoint = TimePoint::timeless();
    for (timeline, time) in times {
        timepoint.put_latest(*timeline, TimeInt::new_temporal(*time));
    }
    timepoint
}

fn row(id: u64, path: &str, times: &[(Timeline, i64)], cells: Vec<DataCell>) -> DataRow {
    DataRow::from_cells(RowId::from_parts(id, 0), at(times), EntityPath::from(path), cells).unwrap()
}

fn store_with_buckets_of(indexed_bucket_num_rows: u64) -> DataStore {
    let config = DataStoreConfig { indexed_bucket_num_rows, store_insert_ids: false };
    DataStore::new(StoreId::from_string(StoreKind::Recording, "test".to_owned()), config)
}

fn store() -> DataStore {
    store_with_buckets_of(512)
}

fn value_of(cell: &DataCell) -> u64 {
    match &*cell.value {
        CellValue::Other(value) => *value,
        _ => panic!("not a plain value"),
    }
}

/// The time, the id of the row and the value.
fn latest(store: &DataStore, timeline: Timeline, time: i64, path: &str, name: &'static str) -> Option<(i64, u64, u64)> {
    let query = LatestAtQuery::new(timeline, TimeInt::new_temporal(time));
    store
        .latest_at(&query, &EntityPath::from(path), &InternedStr::new(name))
        .map(|(time, row_id, cell)| (time.as_i64(), row_id.nanoseconds_since_epoch(), value_of(&cell)))
}

fn options(target: GarbageCollectionTarget, protect_latest: usize) -> GarbageCollectionOptions {
    GarbageCollectionOptions {
        target,
        time_budget_nanos: UNBOUNDED_NANOS,
        protect_latest,
        purge_empty_tables: false,
        dont_protect: vec![],
        enable_batching: false,
    }
}

fn dropped_ids(events: &[StoreEvent]) -> Vec<u64> {
    events.iter().map(|event| event.diff.row_id.nanoseconds_since_epoch()).collect()
}

// --- Writing and reading.

#[test]
fn queries_find_what_was_written() {
    let mut store = store();
    store.insert_row(&row(1, "a", &[(frame(), 10)], vec![cell("x", 1)])).unwrap();
    assert_eq!(latest(&store, frame(), 9, "a", "x"), None);
    assert_eq!(latest(&store, frame(), 10, "a", "x"), Some((10, 1, 1)));

    store.insert_row(&row(2, "a", &[(frame(), 20)], vec![cell("x", 2)])).unwrap();
    assert_eq!(latest(&store, frame(), 19, "a", "x"), Some((10, 1, 1)));
    assert_eq!(latest(&store, frame(), 20, "a", "x"), Some((20, 2, 2)));

    // Something earlier does not hide what is later.
    store.insert_row(&row(3, "a", &[(frame(), 15)], vec![cell("x", 3)])).unwrap();
    assert_eq!(latest(&store, frame(), 20, "a", "x"), Some((20, 2, 2)));
    assert_eq!(latest(&store, frame(), 17, "a", "x"), Some((15, 3, 3)));

    // At the same time, the greater row id wins, whichever comes first.
    store.insert_row(&row(9, "a", &[(frame(), 30)], vec![cell("x", 9)])).unwrap();
    store.insert_row(&row(8, "a", &[(frame(), 30)], vec![cell("x", 8)])).unwrap();
    assert_eq!(latest(&store, frame(), 30, "a", "x"), Some((30, 9, 9)));
}

#[test]
fn rows_about_something_else_change_nothing() {
    let mut store = store();
    store.insert_row(&row(1, "a", &[(frame(), 10)], vec![cell("x", 1)])).unwrap();
    store.insert_row(&row(2, "b", &[(frame(), 11)], vec![cell("x", 2)])).unwrap();
    store.insert_row(&row(3, "a", &[(frame(), 11)], vec![cell("y", 3)])).unwrap();
    store.insert_row(&row(4, "a", &[(log_time(), 11)], vec![cell("x", 4)])).unwrap();
    assert_eq!(latest(&store, frame(), 20, "a", "x"), Some((10, 1, 1)));
    assert_eq!(latest(&store, frame(), 20, "a", "y"), Some((11, 3, 3)));
    assert_eq!(latest(&store, log_time(), 20, "a", "x"), Some((11, 4, 4)));
    assert_eq!(latest(&store, log_time(), 20, "a", "y"), None);
    assert_eq!(latest(&store, frame(), 20, "c", "x"), None);
}

#[test]
fn a_row_can_be_on_more_than_one_timeline() {
    let mut store = store();
    let times = [(frame(), 5), (log_time(), 100)];
    let event = store.insert_row(&row(1, "a", &times, vec![cell("x", 1), cell("y", 2)])).unwrap();
    assert_eq!(event.diff.kind, StoreDiffKind::Addition);
    assert_eq!(event.diff.times, vec![(frame(), TimeInt::new_temporal(5)), (log_time(), TimeInt::new_temporal(100))]);
    assert_eq!(event.diff.cells.len(), 2);
    assert_eq!(event.event_id, 0);
    assert_eq!(event.store_generation.insert_id, 1);
    assert_eq!(event.store_generation, store.generation());
    assert_eq!(latest(&store, frame(), 5, "a", "y"), Some((5, 1, 2)));
    assert_eq!(latest(&store, log_time(), 100, "a", "x"), Some((100, 1, 1)));
    assert_eq!(store.num_temporal_rows(), 2);
    assert_eq!(store.num_static_rows(), 0);
}

#[test]
fn static_data_hides_everything_else() {
    let mut store = store();
    store.insert_row(&row(1, "a", &[(frame(), 10)], vec![cell("x", 1)])).unwrap();
    store.insert_row(&row(2, "a", &[], vec![cell("x", 2)])).unwrap();
    assert_eq!(latest(&store, frame(), 20, "a", "x"), Some((TIME_STATIC, 2, 2)));
    assert_eq!(latest(&store, frame(), 0, "a", "x"), Some((TIME_STATIC, 2, 2)));

    // Only static data of a row with a greater id takes its place.
    store.insert_row(&row(1, "a", &[], vec![cell("x", 1)])).unwrap_err();
    store.insert_row(&row(5, "a", &[], vec![cell("x", 5)])).unwrap();
    assert_eq!(latest(&store, frame(), 20, "a", "x"), Some((TIME_STATIC, 5, 5)));
    store.insert_row(&row(4, "a", &[], vec![cell("x", 4)])).unwrap();
    assert_eq!(latest(&store, frame(), 20, "a", "x"), Some((TIME_STATIC, 5, 5)));
    assert_eq!(store.num_static_rows(), 1);
}

#[test]
fn rows_are_found_across_buckets() {
    let mut store = store_with_buckets_of(2);
    for i in 1..=9 {
        store.insert_row(&row(i, "a", &[(frame(), i as i64 * 10)], vec![cell("x", i)])).unwrap();
    }
    assert_eq!(store.tables[0].table.buckets.len(), 5);
    for i in 1..=9 {
        assert_eq!(latest(&store, frame(), i as i64 * 10 + 5, "a", "x"), Some((i as i64 * 10, i, i)));
    }
    // Back in time, into a bucket that is full already.
    store.insert_row(&row(10, "a", &[(frame(), 15)], vec![cell("x", 10)])).unwrap();
    assert_eq!(latest(&store, frame(), 16, "a", "x"), Some((15, 10, 10)));
    assert_eq!(latest(&store, frame(), 20, "a", "x"), Some((20, 2, 2)));
    assert_eq!(store.tables[0].table.buckets.len(), 5);
}

#[test]
fn the_first_type_of_a_component_stays() {
    let mut store = store();
    assert_eq!(store.lookup_datatype(&InternedStr::new("x")), None);
    store.insert_row(&row(1, "a", &[], vec![cell("x", 1)])).unwrap();
    let other = DataType { id: 8, empty_size_bytes: 0 };
    let second = DataCell::new(InternedStr::new("x"), 1, 4, other, CellValue::Other(2));
    store.insert_row(&row(2, "b", &[], vec![second])).unwrap();
    assert_eq!(store.lookup_datatype(&InternedStr::new("x")), Some(datatype()));
}

// --- Refusals.

#[test]
fn a_component_has_one_cell_in_a_row() {
    let cells = vec![cell("x", 1), cell("y", 2), cell("x", 3)];
    let refused = DataRow::from_cells(RowId::zero(), at(&[]), EntityPath::from("a"), cells);
    assert_eq!(refused.unwrap_err(), DataRowError::DupedComponent(InternedStr::new("x")));
    let cells = vec![cell("x", 1), cell("y", 2)];
    let row = DataRow::from_cells(RowId::zero(), at(&[]), EntityPath::from("a"), cells).unwrap();
    assert_eq!(row.num_cells(), 2);
    assert_eq!(row.row_id(), RowId::zero());
}

#[test]
fn ids_are_not_used_twice() {
    let mut store = store();
    store.insert_row(&row(1, "a", &[(frame(), 10)], vec![cell("x", 1)])).unwrap();
    let generation = store.generation();
    let refused = store.insert_row(&row(1, "b", &[(frame(), 11)], vec![cell("x", 2)]));
    assert_eq!(refused.unwrap_err(), WriteError::ReusedRowId(RowId::from_parts(1, 0)));
    assert_eq!(store.generation(), generation);
    assert_eq!(latest(&store, frame(), 20, "b", "x"), None);
    assert_eq!(store.num_temporal_rows(), 1);
}

#[test]
fn the_books_have_an_end() {
    let mut store = store();
    let huge = DataCell::new(InternedStr::new("x"), 1, u64::MAX, datatype(), CellValue::Other(1));
    let refused = store.insert_row(&row(1, "a", &[(frame(), 10)], vec![huge]));
    assert_eq!(refused.unwrap_err(), WriteError::Full);
    assert_eq!(latest(&store, frame(), 20, "a", "x"), None);
    store.insert_row(&row(1, "a", &[(frame(), 10)], vec![cell("x", 1)])).unwrap();
    assert_eq!(latest(&store, frame(), 20, "a", "x"), Some((10, 1, 1)));
}

#[test]
fn a_row_whose_id_is_taken_gets_another_one() {
    let mut store = store();
    store.insert_row(&row(1, "a", &[(frame(), 10)], vec![cell("x", 1)])).unwrap();
    let again = row(1, "a", &[(frame(), 20)], vec![cell("x", 2)]);
    let event = insert_row_with_retries(&mut store, again, 1000, 100).unwrap();
    // Only the counter has changed.
    assert_eq!(event.diff.row_id.nanoseconds_since_epoch(), 1);
    let inc = event.diff.row_id.bits - RowId::from_parts(1, 0).bits;
    assert!(1 <= inc && inc <= 100);
    assert_eq!(latest(&store, frame(), 30, "a", "x"), Some((20, 1, 2)));

    // A row whose id is free is added as it is.
    let free = row(2, "a", &[(frame(), 30)], vec![cell("x", 3)]);
    let event = insert_row_with_retries(&mut store, free, 1000, 100).unwrap();
    assert_eq!(event.diff.row_id, RowId::from_parts(2, 0));
}

#[test]
fn retries_come_to_an_end() {
    let mut store = store();
    store.insert_row(&row(1, "a", &[(frame(), 10)], vec![cell("x", 1)])).unwrap();
    let again = row(1, "a", &[(frame(), 20)], vec![cell("x", 2)]);
    let refused = insert_row_with_retries(&mut store, again, 1, 1);
    assert_eq!(refused.unwrap_err(), WriteError::ReusedRowId(RowId::from_parts(1, 1)));
    let never = row(7, "a", &[(frame(), 20)], vec![cell("x", 2)]);
    let refused = insert_row_with_retries(&mut store, never, 0, 1);
    assert_eq!(refused.unwrap_err(), WriteError::ReusedRowId(RowId::from_parts(7, 0)));
    let huge = DataCell::new(InternedStr::new("x"), 1, u64::MAX, datatype(), CellValue::Other(1));
    let refused = insert_row_with_retries(&mut store, row(8, "a", &[(frame(), 10)], vec![huge]), 9, 1);
    assert_eq!(refused.unwrap_err(), WriteError::Full);
    assert_eq!(store.num_temporal_rows(), 1);
}

#[test]
fn the_next_id_depends_on_a_random_number() {
    let id = RowId::from_parts(5, 10);
    assert_eq!(next_row_id(id, 0, 100), RowId::from_parts(5, 11));
    assert_eq!(next_row_id(id, 99, 100), RowId::from_parts(5, 110));
    assert_eq!(next_row_id(id, 100, 100), RowId::from_parts(5, 11));
    assert_eq!(next_row_id(RowId::from_parts(5, u64::MAX), 0, 1), RowId::from_parts(5, 0));
    assert_eq!(number_or_zero(Some(42)), 42);
    assert_eq!(number_or_zero(None), 0);
}

// --- Statistics.

#[test]
fn stats_add_up() {
    let mut store = store();
    store.insert_row(&row(1, "a", &[(frame(), 10)], vec![cell("x", 1)])).unwrap();
    let stats = DataStoreStats::from_store(&store);
    assert_eq!(stats.metadata_registry.num_rows, 1);
    assert_eq!(stats.metadata_registry.num_bytes, 16 + 24 + 40 + 8);
    // The bucket itself, and for the row its id, its time, a slot and the cell.
    assert_eq!(stats.temporal.num_rows, 1);
    assert_eq!(stats.temporal.num_bytes, 168 + 16 + 8 + 8 + 32);
    assert_eq!(stats.static_tables.num_rows, 0);
    assert_eq!(stats.total_rows_and_bytes(), (1, 88 + 232));

    store.insert_row(&row(2, "b", &[], vec![cell("x", 1), cell("y", 2)])).unwrap();
    let stats = DataStoreStats::from_store(&store);
    assert_eq!(stats.static_tables.num_rows, 1);
    assert_eq!(stats.static_tables.num_bytes, 64);
    assert_eq!(stats.metadata_registry.num_bytes, 88 + 48);
    assert_eq!(stats.total_rows_and_bytes(), (2, 136 + 232 + 64));

    let none = stats.minus(&stats);
    assert_eq!(none.total_rows_and_bytes(), (0, 0));
}

// --- Collecting garbage.

/// Nine rows of one component, one after the other.
fn nine_rows(bucket_num_rows: u64) -> DataStore {
    let mut store = store_with_buckets_of(bucket_num_rows);
    for i in 1..=9 {
        store.insert_row(&row(i, "a", &[(frame(), i as i64 * 10)], vec![cell("x", i)])).unwrap();
    }
    store
}

#[test]
fn collecting_everything_leaves_nothing() {
    let mut store = nine_rows(512);
    let options = GarbageCollectionOptions::gc_everything();
    assert_eq!(options.target, GarbageCollectionTarget::Everything);
    assert_eq!(options.protect_latest, 0);
    assert_eq!(options.time_budget_nanos, UNBOUNDED_NANOS);
    let (events, dropped) = store.gc(&options);
    assert_eq!(dropped_ids(&events), vec![1, 2, 3, 4, 5, 6, 7, 8, 9]);
    assert!(events.iter().all(|event| event.diff.kind == StoreDiffKind::Deletion));
    assert_eq!(dropped.temporal.num_rows, 9);
    assert_eq!(latest(&store, frame(), TIME_MAX, "a", "x"), None);
    assert_eq!(DataStoreStats::from_store(&store).metadata_registry.num_rows, 0);
}

#[test]
fn the_latest_rows_are_protected() {
    let mut store = nine_rows(512);
    let (events, dropped) = store.gc(&options(GarbageCollectionTarget::Everything, 1));
    assert_eq!(dropped_ids(&events), vec![1, 2, 3, 4, 5, 6, 7, 8]);
    assert_eq!(dropped.temporal.num_rows, 8);
    assert_eq!(dropped.temporal.num_bytes, 8 * 64);
    assert_eq!(dropped.metadata_registry.num_bytes, 8 * 88);
    assert_eq!(latest(&store, frame(), TIME_MAX, "a", "x"), Some((90, 9, 9)));
    assert_eq!(latest(&store, frame(), 85, "a", "x"), None);

    let mut store = nine_rows(512);
    let (events, _) = store.gc(&options(GarbageCollectionTarget::Everything, 3));
    assert_eq!(dropped_ids(&events), vec![1, 2, 3, 4, 5, 6]);
}

#[test]
fn protection_goes_by_component_and_timeline() {
    let mut store = store();
    store.insert_row(&row(1, "a", &[(frame(), 10), (log_time(), 99)], vec![cell("x", 1)])).unwrap();
    store.insert_row(&row(2, "a", &[(frame(), 20), (log_time(), 50)], vec![cell("y", 2)])).unwrap();
    store.insert_row(&row(3, "a", &[(frame(), 30), (log_time(), 60)], vec![cell("x", 3)])).unwrap();
    store.insert_row(&row(4, "b", &[(frame(), 5)], vec![cell("x", 4)])).unwrap();
    // The third is the last `x` on one timeline, the first on the other; the second is the last `y`.
    let (events, _) = store.gc(&options(GarbageCollectionTarget::Everything, 1));
    assert!(events.is_empty());

    // What is not to be protected goes, unless the row is protected for something else.
    let mut not_y = options(GarbageCollectionTarget::Everything, 1);
    not_y.dont_protect = vec![InternedStr::new("y")];
    let (events, _) = store.gc(&not_y);
    assert_eq!(dropped_ids(&events), vec![2]);
    assert_eq!(events[0].diff.times.len(), 2);
    assert_eq!(latest(&store, frame(), 100, "a", "y"), None);
    assert_eq!(latest(&store, frame(), 100, "b", "x"), Some((5, 4, 4)));
}

#[test]
fn the_oldest_rows_go_first() {
    let mut store = store();
    // Logged in the order of their ids, which is not the order of their times.
    store.insert_row(&row(1, "a", &[(frame(), 50)], vec![cell("x", 1)])).unwrap();
    store.insert_row(&row(2, "b", &[(frame(), 10)], vec![cell("x", 2)])).unwrap();
    store.insert_row(&row(3, "a", &[(frame(), 20)], vec![cell("x", 3)])).unwrap();
    let (events, _) = store.gc(&options(GarbageCollectionTarget::DropAtLeastBytes(64), 0));
    assert_eq!(dropped_ids(&events), vec![1]);
    assert_eq!(latest(&store, frame(), 100, "a", "x"), Some((20, 3, 3)));
    assert_eq!(latest(&store, frame(), 100, "b", "x"), Some((10, 2, 2)));
}

#[test]
fn the_target_is_met_and_not_much_exceeded() {
    let mut store = nine_rows(512);
    let before = DataStoreStats::from_store(&store);
    let (events, dropped) = store.gc(&options(GarbageCollectionTarget::DropAtLeastBytes(300), 0));
    // Every row frees 64 bytes; what the registry needs for it counts only after the batch.
    assert_eq!(dropped_ids(&events), vec![1, 2, 3, 4, 5]);
    assert!(dropped.total.num_bytes >= 300);
    let after = DataStoreStats::from_store(&store);
    assert_eq!(before.minus(&after), dropped);

    let (events, dropped) = store.gc(&options(GarbageCollectionTarget::DropAtLeastBytes(0), 0));
    assert!(events.is_empty());
    assert_eq!(dropped.total_rows_and_bytes(), (0, 0));
}

#[test]
fn no_time_means_no_more_than_one_batch() {
    let mut store = store_with_buckets_of(32);
    for i in 1..=200 {
        store.insert_row(&row(i, "a", &[(frame(), i as i64)], vec![cell("x", i)])).unwrap();
    }
    let mut hasty = options(GarbageCollectionTarget::Everything, 0);
    hasty.time_budget_nanos = 0;
    let (events, _) = store.gc(&hasty);
    assert_eq!(dropped_ids(&events), (1..=64).collect::<Vec<_>>());
    let (events, _) = store.gc(&hasty);
    assert_eq!(dropped_ids(&events), (65..=128).collect::<Vec<_>>());
}

#[test]
fn static_data_is_not_collected() {
    let mut store = nine_rows(512);
    store.insert_row(&row(100, "a", &[], vec![cell("z", 100)])).unwrap();
    let (events, _) = store.gc(&GarbageCollectionOptions::gc_everything());
    assert_eq!(events.len(), 9);
    assert_eq!(latest(&store, frame(), 0, "a", "z"), Some((TIME_STATIC, 100, 100)));
    assert_eq!(DataStoreStats::from_store(&store).metadata_registry.num_rows, 1);
}

#[test]
fn batches_drop_whole_buckets() {
    let mut store = nine_rows(2);
    let mut batching = options(GarbageCollectionTarget::Everything, 0);
    batching.enable_batching = true;
    let (events, _) = store.gc(&batching);
    let mut ids = dropped_ids(&events);
    ids.sort_unstable();
    assert_eq!(ids, vec![1, 2, 3, 4, 5, 6, 7, 8, 9]);
    assert_eq!(latest(&store, frame(), TIME_MAX, "a", "x"), None);
    // Rows that leave with their bucket no longer count.
    assert_eq!(store.num_temporal_rows(), 0);
}

#[test]
fn batches_spare_protected_rows_of_earlier_ones() {
    let mut store = store_with_buckets_of(32);
    // The only row of its entity comes first of all.
    store.insert_row(&row(1, "a", &[(frame(), 1)], vec![cell("x", 1)])).unwrap();
    for i in 2..=300 {
        store.insert_row(&row(i, "b", &[(frame(), i as i64)], vec![cell("x", i)])).unwrap();
    }
    let mut batching = options(GarbageCollectionTarget::Everything, 1);
    batching.enable_batching = true;
    let (events, _) = store.gc(&batching);
    assert_eq!(latest(&store, frame(), TIME_MAX, "a", "x"), Some((1, 1, 1)));
    assert_eq!(latest(&store, frame(), TIME_MAX, "b", "x"), Some((300, 300, 300)));
    let mut ids = dropped_ids(&events);
    ids.sort_unstable();
    assert_eq!(ids, (2..=299).collect::<Vec<_>>());
    assert_eq!(store.num_temporal_rows(), 2);
}

#[test]
fn time_is_up_by_the_bound() {
    assert!(is_out_of_time(0, 0));
    assert!(!is_out_of_time(4, 5));
    assert!(is_out_of_time(5, 5));
    assert!(!is_out_of_time(u128::MAX, UNBOUNDED_NANOS));
    assert!(is_out_of_time(u128::MAX, UNBOUNDED_NANOS - 1));
}

#[test]
fn collections_report_every_row_once() {
    let mut store = store_with_buckets_of(32);
    for i in 1..=200 {
        let times = [(frame(), i as i64), (log_time(), -(i as i64))];
        store.insert_row(&row(i, "a", &times, vec![cell("x", i)])).unwrap();
    }
    store.insert_row(&row(500, "a", &[], vec![cell("z", 1)])).unwrap();
    let (events, _) = store.gc(&GarbageCollectionOptions::gc_everything());
    assert_eq!(dropped_ids(&events), (1..=200).collect::<Vec<_>>());
    assert!(events.iter().all(|event| event.diff.times.len() == 2));
    assert_eq!(store.num_temporal_rows(), 0);
    assert_eq!(latest(&store, frame(), 0, "a", "z"), Some((TIME_STATIC, 500, 1)));
}

#[test]
fn a_table_without_buckets_gets_an_empty_one_back() {
    let mut store = store();
    let empty = DataStoreStats::from_store(&store).temporal.num_bytes;
    store.insert_row(&row(1, "a", &[(frame(), 10)], vec![cell("x", 1)])).unwrap();
    let used = DataStoreStats::from_store(&store).temporal.num_bytes - empty;
    let mut batching = options(GarbageCollectionTarget::DropAtLeastBytes(u128::from(used)), 0);
    batching.enable_batching = true;
    let (events, dropped) = store.gc(&batching);
    // The bucket as a whole meets the target, though the empty one stays behind.
    assert_eq!(dropped_ids(&events), vec![1]);
    assert_eq!(dropped.temporal.num_bytes, 64);
    assert_eq!(DataStoreStats::from_store(&store).temporal.num_bytes - empty, used - 64);
}

#[test]
fn batches_with_protected_rows_go_row_by_row() {
    let mut store = nine_rows(2);
    let mut batching = options(GarbageCollectionTarget::Everything, 2);
    batching.enable_batching = true;
    let (events, _) = store.gc(&batching);
    assert_eq!(dropped_ids(&events), vec![1, 2, 3, 4, 5, 6, 7]);
    assert_eq!(latest(&store, frame(), TIME_MAX, "a", "x"), Some((90, 9, 9)));
    assert_eq!(latest(&store, frame(), 85, "a", "x"), Some((80, 8, 8)));
}

#[test]
fn tables_without_data_are_purged() {
    let mut store = store();
    let empty = DataCell::from_arrow_empty(InternedStr::new("x"), datatype());
    assert!(empty.is_empty());
    assert_eq!(empty.num_instances(), 0);
    assert_eq!(empty.size_bytes, 8);
    store.insert_row(&row(1, "a", &[(frame(), 10)], vec![cell("x", 1)])).unwrap();
    store.insert_row(&row(2, "a", &[(frame(), 20)], vec![empty.clone()])).unwrap();
    store.insert_row(&row(3, "b", &[(frame(), 20)], vec![cell("x", 3)])).unwrap();
    assert_eq!(store.tables.len(), 2);

    let mut purging = options(GarbageCollectionTarget::Everything, 1);
    purging.purge_empty_tables = true;
    let (events, _) = store.gc(&purging);
    // The first row is dropped; what is left of its table is one empty cell, and goes as well.
    assert_eq!(dropped_ids(&events), vec![1, 2]);
    assert_eq!(store.tables.len(), 1);
    assert_eq!(latest(&store, frame(), 30, "b", "x"), Some((20, 3, 3)));

    // Without purging it stays.
    let mut store = self::store();
    store.insert_row(&row(2, "a", &[(frame(), 20)], vec![empty])).unwrap();
    let (events, _) = store.gc(&options(GarbageCollectionTarget::Everything, 1));
    assert!(events.is_empty());
    assert_eq!(store.tables.len(), 1);
}

#[test]
fn purged_rows_are_reported_once() {
    let mut store = store();
    let empty = DataCell::from_arrow_empty(InternedStr::new("x"), datatype());
    let times = [(frame(), 10), (log_time(), 100)];
    store.insert_row(&row(1, "a", &times, vec![cell("x", 1)])).unwrap();
    store.insert_row(&row(2, "a", &times, vec![empty])).unwrap();
    let mut purging = options(GarbageCollectionTarget::Everything, 1);
    purging.purge_empty_tables = true;
    let (events, _) = store.gc(&purging);
    assert_eq!(dropped_ids(&events), vec![1, 2]);
    assert!(events.iter().all(|event| event.diff.times.len() == 2));
    assert!(store.tables.is_empty());
}

#[test]
fn collections_count_in_the_generation() {
    let mut store = nine_rows(512);
    let before = store.generation();
    let (events, _) = store.gc(&options(GarbageCollectionTarget::Everything, 8));
    let after = store.generation();
    assert_eq!(after.gc_id, before.gc_id + 1);
    assert_eq!(after.insert_id, before.insert_id);
    assert_eq!(events.len(), 1);
    assert_eq!(events[0].store_generation, after);
    assert_eq!(events[0].event_id, 9);
    let (events, _) = store.gc(&options(GarbageCollectionTarget::Everything, 7));
    assert_eq!(events[0].event_id, 10);
}

#[test]
fn an_id_can_be_used_again_once_its_row_is_gone() {
    let mut store = nine_rows(512);
    store.gc(&GarbageCollectionOptions::gc_everything());
    store.insert_row(&row(1, "a", &[(frame(), 7)], vec![cell("x", 70)])).unwrap();
    assert_eq!(latest(&store, frame(), 100, "a", "x"), Some((7, 1, 70)));
}

// --- Times.

#[test]
fn times_stay_within_bounds() {
    assert_eq!(TimeInt::new_temporal(5).as_i64(), 5);
    assert_eq!(TimeInt::new_temporal(i64::MIN).as_i64(), TIME_MIN);
    assert_eq!(TimeInt::new_temporal(i64::MAX).as_i64(), TIME_MAX);
    let mut store = store();
    store.insert_row(&row(1, "a", &[(frame(), i64::MIN)], vec![cell("x", 1)])).unwrap();
    assert_eq!(latest(&store, frame(), TIME_MIN, "a", "x"), Some((TIME_MIN, 1, 1)));
}

#[test]
fn the_later_time_of_a_timeline_wins() {
    let mut timepoint = at(&[(frame(), 5), (log_time(), 7)]);
    timepoint.put_latest(frame(), TimeInt::new_temporal(3));
    assert_eq!(timepoint.times[0].1.as_i64(), 5);
    timepoint.put_latest(frame(), TimeInt::new_temporal(8));
    assert_eq!(timepoint.times[0].1.as_i64(), 8);
    assert_eq!(timepoint.times.len(), 2);
    assert!(!timepoint.is_static());
    assert!(TimePoint::timeless().is_static());
}

#[test]
fn row_ids_count_up() {
    let id = RowId::from_parts(3, 4);
    assert_eq!(id.nanoseconds_since_epoch(), 3);
    assert_eq!(id.next(), RowId::from_parts(3, 5));
    assert_eq!(id.incremented_by(2).incremented_by(3), id.incremented_by(5));
    assert_eq!(RowId::from_parts(3, u64::MAX).next(), RowId::from_parts(3, 0));
    assert_eq!(RowId::zero().bits, 0);
    let fresh = re_log_types::RowId::new();
    let same = RowId { bits: fresh.as_u128() };
    assert_eq!(same.nanoseconds_since_epoch(), fresh.nanoseconds_since_epoch());
    assert_eq!(same.incremented_by(7).bits, fresh.incremented_by(7).as_u128());
}

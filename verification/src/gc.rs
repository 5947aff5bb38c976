//! Garbage collection: dropping old rows until enough bytes are freed.
use crate::bucket::opt_diff;
use crate::entries::{contains_row_id, RowIdSet};
use crate::names::{ComponentName, RowId, TimeInt, Timeline, TIME_MIN};
use crate::protect::{protected_rows, purge_spec, Purge};
use crate::row::{
    diff_views, event_diffs, find_timeline, has_timeline, times_temporal, DiffView, StoreDiff,
    StoreEvent, StoreGeneration,
};
use crate::stats::{stats_minus, stats_of, DataStoreStats};
use crate::store::{
    find_table, is_table_of, lemma_slot_index, meta_size, metas, metas_below, registry_valid,
    slot_index, slots, tables_valid, DataStore, MetadataRegistry, RowMeta, RowMetadata, StoreTable,
    StoreView, TableSlot, PATH_HASH_BYTES, REGISTRY_ROW_ID_BYTES, TIME_POINT_BYTES,
    TIME_POINT_ENTRY_BYTES,
};
use crate::table::{
    drop_buckets_spec, drop_row_spec, lemma_diff_views_append, lemma_drop_buckets_valid,
    lemma_drop_row_valid,
};
use vstd::prelude::*;

verus! {

/// How much garbage to collect.
#[derive(Clone, Copy, Debug, PartialEq, Eq, Structural)]
pub enum GarbageCollectionTarget {
    /// Try to drop at least this many bytes.
    DropAtLeastBytes(u128),
    /// Drop everything that is not protected.
    Everything,
}

/// How to collect garbage.
#[derive(Debug)]
pub struct GarbageCollectionOptions {
    /// What target threshold to try to meet.
    pub target: GarbageCollectionTarget,
    /// How long the collection may run for, in nanoseconds.
    ///
    /// A smaller budget clears less data in less time, at the cost of more frequent runs.
    pub time_budget_nanos: u128,
    /// How many revisions of each component to preserve on each timeline.
    pub protect_latest: usize,
    /// Whether to purge tables that no longer contain any data.
    pub purge_empty_tables: bool,
    /// Components which `protect_latest` does not protect.
    pub dont_protect: Vec<ComponentName>,
    /// Whether to drop whole buckets at once where that is possible.
    pub enable_batching: bool,
}

/// The longest time there is: that of `Duration::MAX`.
pub const UNBOUNDED_NANOS: u128 = 18_446_744_073_709_551_615_999_999_999;

impl GarbageCollectionOptions {
    /// Collects everything, however long it takes.
    pub fn gc_everything() -> (r: GarbageCollectionOptions)
        ensures
            r.target is Everything,
            r.time_budget_nanos == UNBOUNDED_NANOS,
            r.protect_latest == 0,
            r.purge_empty_tables,
            r.dont_protect@ == Seq::<ComponentName>::empty(),
            !r.enable_batching,
    {
        GarbageCollectionOptions {
            target: GarbageCollectionTarget::Everything,
            time_budget_nanos: UNBOUNDED_NANOS,
            protect_latest: 0,
            purge_empty_tables: true,
            dont_protect: Vec::new(),
            enable_batching: false,
        }
    }
}

// --- The budget of bytes that are left to drop; `None` if there is no end to it.

/// A budget once some more bytes were dropped.
pub open spec fn less(budget: Option<u128>, num_bytes: int) -> Option<u128> {
    match budget {
        None => None,
        Some(left) => if left <= num_bytes {
            Some(0)
        } else {
            Some((left - num_bytes) as u128)
        },
    }
}

/// Whether nothing more has to be dropped.
pub open spec fn spent(budget: Option<u128>) -> bool {
    budget == Some(0u128)
}

fn reduce(budget: &mut Option<u128>, num_bytes: u128)
    ensures
        *final(budget) == less(*old(budget), num_bytes as int),
{
    if let Some(left) = *budget {
        if left <= num_bytes {
            *budget = Some(0);
        } else {
            *budget = Some(left - num_bytes);
        }
    }
}

fn is_spent(budget: &Option<u128>) -> (r: bool)
    ensures
        r == spent(*budget),
{
    match budget {
        Some(left) => *left == 0,
        None => false,
    }
}

pub proof fn lemma_less_twice(budget: Option<u128>, a: int, b: int)
    requires
        a >= 0,
        b >= 0,
    ensures
        less(less(budget, a), b) == less(budget, a + b),
{
}

// --- Dropping one row from all of its tables.

/// What dropping one row leaves, what it reports, and how many bytes it frees.
#[verifier::ext_equal]
pub struct RowDrop {
    pub tables: Seq<TableSlot>,
    pub diff: Option<DiffView>,
    pub num_bytes: int,
}

/// What is reported of a row that left one table and then another: it was there at both times.
pub open spec fn merge_times(
    diff: Option<DiffView>,
    removed: Option<DiffView>,
) -> Option<DiffView> {
    match (diff, removed) {
        (Some(diff), Some(removed)) => Some(
            DiffView { times: diff.times + removed.times, ..diff },
        ),
        (Some(diff), None) => Some(diff),
        (None, removed) => removed,
    }
}

/// What dropping a row comes to that is expected to be found at the given times.
pub open spec fn drop_row_at_times(
    tables: Seq<TableSlot>,
    hash: u64,
    row_id: RowId,
    times: Seq<(Timeline, TimeInt)>,
) -> RowDrop
    decreases times.len(),
{
    if times.len() == 0 {
        RowDrop { tables, diff: None, num_bytes: 0 }
    } else {
        let st = drop_row_at_times(tables, hash, row_id, times.drop_last());
        let (timeline, time) = times.last();
        match slot_index(st.tables, hash, timeline@) {
            None => st,
            Some(i) => {
                let dropped = drop_row_spec(st.tables[i].table, row_id, time);
                RowDrop {
                    tables: st.tables.update(i, TableSlot { hash, table: dropped.table }),
                    diff: merge_times(st.diff, dropped.diff),
                    num_bytes: st.num_bytes + dropped.num_bytes,
                }
            },
        }
    }
}

/// Tables stay valid when one of them is replaced by another one of the same entity and timeline.
pub proof fn lemma_tables_update_valid(
    tables: Seq<TableSlot>,
    store_insert_ids: bool,
    i: int,
    new: TableSlot,
)
    requires
        tables_valid(tables, store_insert_ids),
        0 <= i < tables.len(),
        new.hash == tables[i].hash,
        new.table.timeline@ == tables[i].table.timeline@,
        new.table.entity_path == tables[i].table.entity_path,
        new.table.store_insert_ids == tables[i].table.store_insert_ids,
        new.table.valid(),
    ensures
        tables_valid(tables.update(i, new), store_insert_ids),
{
    reveal(tables_valid);
    let out = tables.update(i, new);
    assert forall|a: int, b: int|
        #![trigger out[a], out[b]]
        0 <= a < b < out.len() implies out[a].hash <= out[b].hash && !is_table_of(
        out[a],
        out[b].hash,
        out[b].table.timeline@,
    ) by {
        assert(tables[a].hash <= tables[b].hash);
        assert(!is_table_of(tables[a], tables[b].hash, tables[b].table.timeline@));
    }
}

pub proof fn lemma_table_of_valid(tables: Seq<TableSlot>, store_insert_ids: bool, i: int)
    requires
        tables_valid(tables, store_insert_ids),
        0 <= i < tables.len(),
    ensures
        tables[i].table.valid(),
        tables[i].table.store_insert_ids == store_insert_ids,
{
    reveal(tables_valid);
}

/// Tables that gave up a row are valid, and no bytes were added.
pub proof fn lemma_drop_row_at_times_valid(
    tables: Seq<TableSlot>,
    store_insert_ids: bool,
    hash: u64,
    row_id: RowId,
    times: Seq<(Timeline, TimeInt)>,
)
    requires
        tables_valid(tables, store_insert_ids),
        times_temporal(times),
    ensures
        tables_valid(drop_row_at_times(tables, hash, row_id, times).tables, store_insert_ids),
        drop_row_at_times(tables, hash, row_id, times).tables.len() == tables.len(),
        drop_row_at_times(tables, hash, row_id, times).num_bytes >= 0,
    decreases times.len(),
{
    if times.len() > 0 {
        let init = times.drop_last();
        assert(times_temporal(init)) by {
            assert forall|i: int| 0 <= i < init.len() implies (#[trigger] init[i]).1.value
                >= TIME_MIN by {
                assert(times[i].1.value >= TIME_MIN);
            }
        }
        lemma_drop_row_at_times_valid(tables, store_insert_ids, hash, row_id, init);
        let st = drop_row_at_times(tables, hash, row_id, init);
        let (timeline, time) = times.last();
        assert(times[times.len() - 1].1.value >= TIME_MIN);
        if let Some(i) = slot_index(st.tables, hash, timeline@) {
            lemma_table_of_valid(st.tables, store_insert_ids, i);
            lemma_drop_row_valid(st.tables[i].table, row_id, time);
            let dropped = drop_row_spec(st.tables[i].table, row_id, time);
            lemma_tables_update_valid(
                st.tables,
                store_insert_ids,
                i,
                TableSlot { hash, table: dropped.table },
            );
        }
    }
}

/// Whether every table keeps its own books in order.
pub open spec fn all_tables_wf(tables: Seq<StoreTable>) -> bool {
    forall|i: int| 0 <= i < tables.len() ==> (#[trigger] tables[i]).table.wf()
}

/// Drops one row from all of its tables.
fn drop_row_everywhere(
    tables: &mut Vec<StoreTable>,
    budget: &mut Option<u128>,
    row: &RowMetadata,
    store_insert_ids: Ghost<bool>,
) -> (r: Option<StoreDiff>)
    requires
        all_tables_wf(old(tables)@),
        tables_valid(slots(old(tables)@), store_insert_ids@),
        times_temporal(row.timepoint.times@),
    ensures
        all_tables_wf(final(tables)@),
        tables_valid(slots(final(tables)@), store_insert_ids@),
        ({
            let dropped = drop_row_at_times(
                slots(old(tables)@),
                row.entity_path_hash,
                row.row_id,
                row.timepoint.times@,
            );
            &&& slots(final(tables)@) == dropped.tables
            &&& opt_diff(r) == dropped.diff
            &&& *final(budget) == less(*old(budget), dropped.num_bytes)
        }),
{
    let ghost before = slots(tables@);
    let ghost times = row.timepoint.times@;
    let hash: u64 = row.entity_path_hash;
    let mut diff: Option<StoreDiff> = None;
    let mut t: usize = 0;
    while t < row.timepoint.times.len()
        invariant
            t <= times.len(),
            times == row.timepoint.times@,
            times_temporal(times),
            hash == row.entity_path_hash,
            before == slots(old(tables)@),
            tables_valid(before, store_insert_ids@),
            all_tables_wf(tables@),
            tables_valid(slots(tables@), store_insert_ids@),
            ({
                let dropped = drop_row_at_times(before, hash, row.row_id, times.take(t as int));
                &&& slots(tables@) == dropped.tables
                &&& opt_diff(diff) == dropped.diff
                &&& *budget == less(*old(budget), dropped.num_bytes)
            }),
        decreases times.len() - t,
    {
        let (timeline, time) = row.timepoint.times[t];
        let ghost st = drop_row_at_times(before, hash, row.row_id, times.take(t as int));
        proof {
            assert(times.take(t + 1).drop_last() =~= times.take(t as int));
            assert(times.take(t + 1).last() == times[t as int]);
            assert(times_temporal(times.take(t as int)));
            lemma_drop_row_at_times_valid(
                before,
                store_insert_ids@,
                hash,
                row.row_id,
                times.take(t as int),
            );
            assert(times_temporal(times.take(t + 1)));
            lemma_drop_row_at_times_valid(
                before,
                store_insert_ids@,
                hash,
                row.row_id,
                times.take(t + 1),
            );
        }
        match find_table(tables, hash, &timeline) {
            Some(i) => {
                proof {
                    lemma_slot_index(st.tables, store_insert_ids@, hash, timeline@, i as int);
                    assert(tables@[i as int].table.wf());
                    lemma_table_of_valid(st.tables, store_insert_ids@, i as int);
                    lemma_drop_row_valid(st.tables[i as int].table, row.row_id, time);
                    lemma_less_twice(
                        *old(budget),
                        st.num_bytes,
                        drop_row_spec(st.tables[i as int].table, row.row_id, time).num_bytes,
                    );
                }
                let (removed, num_bytes) = tables[i].table.try_drop_row(row.row_id, time);
                proof {
                    let dropped = drop_row_spec(st.tables[i as int].table, row.row_id, time);
                    assert(slots(tables@) =~= st.tables.update(
                        i as int,
                        TableSlot { hash, table: dropped.table },
                    ));
                }
                match (&mut diff, removed) {
                    (Some(inner), Some(mut removed)) => {
                        inner.times.append(&mut removed.times);
                    },
                    (None, removed) => {
                        diff = removed;
                    },
                    _ => {},
                }
                reduce(budget, num_bytes as u128);
            },
            None => {},
        }
        t += 1;
    }
    assert(times.take(t as int) =~= times);
    diff
}

// --- Dropping rows one by one.

/// What dropping rows leaves, what it reports, and what remains of the budget.
#[verifier::ext_equal]
pub struct RowsDrop {
    pub tables: Seq<TableSlot>,
    pub diffs: Seq<DiffView>,
    pub budget: Option<u128>,
}

pub open spec fn opt_seq(diff: Option<DiffView>) -> Seq<DiffView> {
    match diff {
        Some(diff) => seq![diff],
        None => Seq::empty(),
    }
}

/// What dropping rows one after the other comes to, up to the one that uses up the budget.
///
/// A budget that is used up already stops nothing before the first row.
pub open spec fn drop_rows(tables: Seq<TableSlot>, budget: Option<u128>, rows: Seq<RowMeta>)
    -> RowsDrop
    decreases rows.len(),
{
    if rows.len() == 0 {
        RowsDrop { tables, diffs: Seq::empty(), budget }
    } else {
        let st = drop_rows(tables, budget, rows.drop_last());
        if rows.len() > 1 && spent(st.budget) {
            st
        } else {
            let row = rows.last();
            let dropped = drop_row_at_times(st.tables, row.hash, row.row_id, row.times);
            RowsDrop {
                tables: dropped.tables,
                diffs: st.diffs + opt_seq(dropped.diff),
                budget: less(st.budget, dropped.num_bytes),
            }
        }
    }
}

/// Once the budget is used up, the rows that follow are not looked at.
proof fn lemma_drop_rows_stopped(
    tables: Seq<TableSlot>,
    budget: Option<u128>,
    rows: Seq<RowMeta>,
    n: int,
)
    requires
        0 < n <= rows.len(),
        spent(drop_rows(tables, budget, rows.take(n)).budget),
    ensures
        drop_rows(tables, budget, rows) == drop_rows(tables, budget, rows.take(n)),
    decreases rows.len(),
{
    if n == rows.len() {
        assert(rows.take(n) =~= rows);
    } else {
        let init = rows.drop_last();
        assert(init.take(n) =~= rows.take(n));
        lemma_drop_rows_stopped(tables, budget, init, n);
    }
}

/// Whether rows have proper times.
pub open spec fn rows_temporal(rows: Seq<RowMeta>) -> bool {
    forall|i: int| 0 <= i < rows.len() ==> times_temporal((#[trigger] rows[i]).times)
}

pub proof fn lemma_drop_rows_valid(
    tables: Seq<TableSlot>,
    store_insert_ids: bool,
    budget: Option<u128>,
    rows: Seq<RowMeta>,
)
    requires
        tables_valid(tables, store_insert_ids),
        rows_temporal(rows),
    ensures
        tables_valid(drop_rows(tables, budget, rows).tables, store_insert_ids),
        drop_rows(tables, budget, rows).tables.len() == tables.len(),
    decreases rows.len(),
{
    if rows.len() > 0 {
        let init = rows.drop_last();
        assert(rows_temporal(init)) by {
            assert forall|i: int| 0 <= i < init.len() implies times_temporal(
                (#[trigger] init[i]).times,
            ) by {
                assert(times_temporal(rows[i].times));
            }
        }
        lemma_drop_rows_valid(tables, store_insert_ids, budget, init);
        let st = drop_rows(tables, budget, init);
        let row = rows.last();
        assert(times_temporal(rows[rows.len() - 1].times));
        lemma_drop_row_at_times_valid(st.tables, store_insert_ids, row.hash, row.row_id, row.times);
    }
}

fn drop_rows_one_by_one(
    tables: &mut Vec<StoreTable>,
    budget: &mut Option<u128>,
    rows: &Vec<RowMetadata>,
    store_insert_ids: Ghost<bool>,
) -> (r: Vec<StoreDiff>)
    requires
        all_tables_wf(old(tables)@),
        tables_valid(slots(old(tables)@), store_insert_ids@),
        rows_temporal(metas(rows@)),
    ensures
        all_tables_wf(final(tables)@),
        tables_valid(slots(final(tables)@), store_insert_ids@),
        ({
            let dropped = drop_rows(slots(old(tables)@), *old(budget), metas(rows@));
            &&& slots(final(tables)@) == dropped.tables
            &&& diff_views(r@) == dropped.diffs
            &&& *final(budget) == dropped.budget
        }),
{
    let ghost before = slots(tables@);
    let ghost all = metas(rows@);
    let mut diffs: Vec<StoreDiff> = Vec::new();
    assert(diff_views(diffs@) =~= Seq::<DiffView>::empty());
    let mut i: usize = 0;
    while i < rows.len()
        invariant
            i <= rows@.len(),
            all == metas(rows@),
            rows_temporal(all),
            before == slots(old(tables)@),
            tables_valid(before, store_insert_ids@),
            all_tables_wf(tables@),
            tables_valid(slots(tables@), store_insert_ids@),
            ({
                let dropped = drop_rows(before, *old(budget), all.take(i as int));
                &&& slots(tables@) == dropped.tables
                &&& diff_views(diffs@) == dropped.diffs
                &&& *budget == dropped.budget
                &&& i > 0 ==> !spent(dropped.budget)
            }),
        decreases rows@.len() - i,
    {
        proof {
            assert(all.take(i + 1).drop_last() =~= all.take(i as int));
            assert(all.take(i + 1).last() == all[i as int]);
            assert(times_temporal(all[i as int].times));
        }
        let diff = drop_row_everywhere(tables, budget, &rows[i], store_insert_ids);
        let ghost old_diffs = diffs@;
        if let Some(diff) = diff {
            diffs.push(diff);
            assert(diff_views(diffs@) =~= diff_views(old_diffs) + seq![diff@]);
        } else {
            assert(diff_views(diffs@) =~= diff_views(old_diffs) + Seq::empty());
        }
        i += 1;
        if is_spent(budget) {
            proof {
                lemma_drop_rows_stopped(before, *old(budget), all, i as int);
            }
            return diffs;
        }
    }
    assert(all.take(i as int) =~= all);
    diffs
}

// --- Dropping whole buckets.

/// The position of what is reported of a row.
pub open spec fn diff_index(diffs: Seq<DiffView>, row_id: RowId) -> Option<int>
    decreases diffs.len(),
{
    if diffs.len() == 0 {
        None
    } else {
        match diff_index(diffs.drop_last(), row_id) {
            Some(i) => Some(i),
            None => if diffs.last().row_id == row_id {
                Some(diffs.len() - 1)
            } else {
                None
            },
        }
    }
}

/// Takes in what is reported of a row; if it was reported before, only its times are added.
pub open spec fn merge_diff(diffs: Seq<DiffView>, removed: DiffView) -> Seq<DiffView> {
    match diff_index(diffs, removed.row_id) {
        Some(i) => diffs.update(
            i,
            DiffView { times: diffs[i].times + removed.times, ..diffs[i] },
        ),
        None => diffs.push(removed),
    }
}

pub open spec fn merge_diffs(diffs: Seq<DiffView>, removed: Seq<DiffView>) -> Seq<DiffView>
    decreases removed.len(),
{
    if removed.len() == 0 {
        diffs
    } else {
        merge_diff(merge_diffs(diffs, removed.drop_last()), removed.last())
    }
}

/// What dropping old buckets from tables leaves, what it reports, and how many bytes it frees.
#[verifier::ext_equal]
pub struct BucketsDrop {
    pub tables: Seq<TableSlot>,
    /// What is reported of entities that are done with.
    pub diffs: Seq<DiffView>,
    /// What is reported of the entity whose tables come last.
    pub pending: Seq<DiffView>,
    pub hash: Option<u64>,
    pub num_bytes: int,
}

/// What dropping all buckets without any row id greater than `max` comes to.
///
/// A row that leaves several tables of its entity is reported once.
pub open spec fn drop_buckets(
    tables: Seq<TableSlot>,
    max: RowId,
    protected: Set<u128>,
) -> BucketsDrop
    decreases tables.len(),
{
    if tables.len() == 0 {
        BucketsDrop {
            tables,
            diffs: Seq::empty(),
            pending: Seq::empty(),
            hash: None,
            num_bytes: 0,
        }
    } else {
        let st = drop_buckets(tables.drop_last(), max, protected);
        let slot = tables.last();
        let dropped = drop_buckets_spec(slot.table, max, protected);
        let same_entity = st.hash == Some(slot.hash);
        BucketsDrop {
            tables: st.tables.push(TableSlot { hash: slot.hash, table: dropped.table }),
            diffs: if same_entity {
                st.diffs
            } else {
                st.diffs + st.pending
            },
            pending: merge_diffs(
                if same_entity {
                    st.pending
                } else {
                    Seq::empty()
                },
                dropped.diffs,
            ),
            hash: Some(slot.hash),
            num_bytes: st.num_bytes + dropped.num_bytes,
        }
    }
}

pub proof fn lemma_tables_prefix_valid(tables: Seq<TableSlot>, store_insert_ids: bool, n: int)
    requires
        tables_valid(tables, store_insert_ids),
        0 <= n <= tables.len(),
    ensures
        tables_valid(tables.take(n), store_insert_ids),
{
    reveal(tables_valid);
    let out = tables.take(n);
    assert forall|a: int, b: int|
        #![trigger out[a], out[b]]
        0 <= a < b < out.len() implies out[a].hash <= out[b].hash && !is_table_of(
        out[a],
        out[b].hash,
        out[b].table.timeline@,
    ) by {
        assert(tables[a].hash <= tables[b].hash);
    }
    assert forall|i: int| 0 <= i < out.len() implies {
        &&& (#[trigger] out[i]).table.valid()
        &&& crate::path::entity_path_hash(out[i].table.entity_path) == out[i].hash
        &&& out[i].table.store_insert_ids == store_insert_ids
    } by {
        assert(tables[i].table.valid());
    }
}

pub proof fn lemma_drop_buckets_tables(
    tables: Seq<TableSlot>,
    store_insert_ids: bool,
    max: RowId,
    protected: Set<u128>,
)
    requires
        tables_valid(tables, store_insert_ids),
    ensures
        tables_valid(drop_buckets(tables, max, protected).tables, store_insert_ids),
        drop_buckets(tables, max, protected).tables.len() == tables.len(),
        drop_buckets(tables, max, protected).num_bytes >= 0,
        forall|i: int|
            0 <= i < tables.len() ==> #[trigger] drop_buckets(tables, max, protected).tables[i] == (
            TableSlot { hash: tables[i].hash, table: drop_buckets_spec(tables[i].table, max, protected).table }),
    decreases tables.len(),
{
    if tables.len() > 0 {
        let init = tables.drop_last();
        assert(init =~= tables.take(tables.len() - 1));
        lemma_tables_prefix_valid(tables, store_insert_ids, tables.len() - 1);
        lemma_drop_buckets_tables(init, store_insert_ids, max, protected);
        lemma_table_of_valid(tables, store_insert_ids, tables.len() - 1);
        lemma_drop_buckets_valid(tables.last().table, max, protected);
        let out = drop_buckets(tables, max, protected).tables;
        assert forall|i: int| 0 <= i < tables.len() implies #[trigger] out[i] == (TableSlot {
            hash: tables[i].hash,
            table: drop_buckets_spec(tables[i].table, max, protected).table,
        }) by {
            if i < init.len() {
                assert(out[i] == drop_buckets(init, max, protected).tables[i]);
            }
        }
        assert(tables_valid(out, store_insert_ids)) by {
            reveal(tables_valid);
            assert forall|a: int, b: int|
                #![trigger out[a], out[b]]
                0 <= a < b < out.len() implies out[a].hash <= out[b].hash && !is_table_of(
                out[a],
                out[b].hash,
                out[b].table.timeline@,
            ) by {
                assert(tables[a].hash <= tables[b].hash);
                assert(!is_table_of(tables[a], tables[b].hash, tables[b].table.timeline@));
            }
            assert forall|i: int| 0 <= i < out.len() implies {
                &&& (#[trigger] out[i]).table.valid()
                &&& crate::path::entity_path_hash(out[i].table.entity_path) == out[i].hash
                &&& out[i].table.store_insert_ids == store_insert_ids
            } by {
                assert(tables[i].table.valid());
                lemma_drop_buckets_valid(tables[i].table, max, protected);
            }
        }
    }
}

/// The position of what is reported of a row.
fn find_diff(diffs: &Vec<StoreDiff>, row_id: RowId) -> (r: Option<usize>)
    ensures
        match r {
            Some(i) => i < diffs@.len() && diff_index(diff_views(diffs@), row_id) == Some(i as int),
            None => diff_index(diff_views(diffs@), row_id) is None,
        },
{
    let ghost all = diff_views(diffs@);
    let mut i: usize = 0;
    while i < diffs.len()
        invariant
            i <= diffs@.len(),
            all == diff_views(diffs@),
            diff_index(all.take(i as int), row_id) is None,
        decreases diffs@.len() - i,
    {
        assert(all.take(i + 1).drop_last() =~= all.take(i as int));
        if diffs[i].row_id.bits == row_id.bits {
            proof {
                assert(diff_index(all.take(i + 1), row_id) == Some(i as int));
                lemma_diff_index_prefix(all, row_id, i + 1);
            }
            return Some(i);
        }
        i += 1;
    }
    assert(all.take(i as int) =~= all);
    None
}

proof fn lemma_diff_index_prefix(diffs: Seq<DiffView>, row_id: RowId, n: int)
    requires
        0 <= n <= diffs.len(),
        diff_index(diffs.take(n), row_id) is Some,
    ensures
        diff_index(diffs, row_id) == diff_index(diffs.take(n), row_id),
    decreases diffs.len(),
{
    if n == diffs.len() {
        assert(diffs.take(n) =~= diffs);
    } else {
        assert(diffs.drop_last().take(n) =~= diffs.take(n));
        lemma_diff_index_prefix(diffs.drop_last(), row_id, n);
    }
}

/// Takes in what is reported of rows.
fn take_in(diffs: &mut Vec<StoreDiff>, removed: Vec<StoreDiff>)
    ensures
        diff_views(final(diffs)@) == merge_diffs(diff_views(old(diffs)@), diff_views(removed@)),
{
    let ghost all = diff_views(removed@);
    let mut i: usize = 0;
    while i < removed.len()
        invariant
            i <= removed@.len(),
            all == diff_views(removed@),
            diff_views(diffs@) == merge_diffs(diff_views(old(diffs)@), all.take(i as int)),
        decreases removed@.len() - i,
    {
        let ghost before = diff_views(diffs@);
        assert(all.take(i + 1).drop_last() =~= all.take(i as int));
        assert(all.take(i + 1).last() == removed@[i as int]@);
        match find_diff(diffs, removed[i].row_id) {
            Some(k) => {
                let mut times = crate::row::clone_times(&removed[i].times);
                diffs[k].times.append(&mut times);
                assert(diff_views(diffs@) =~= merge_diff(before, removed@[i as int]@));
            },
            None => {
                diffs.push(removed[i].clone());
                assert(diff_views(diffs@) =~= before.push(removed@[i as int]@));
            },
        }
        i += 1;
    }
    assert(all.take(i as int) =~= all);
}

fn drop_old_buckets(
    tables: &mut Vec<StoreTable>,
    budget: &mut Option<u128>,
    max_row_id: RowId,
    protected: &RowIdSet,
    store_insert_ids: Ghost<bool>,
) -> (r: Vec<StoreDiff>)
    requires
        all_tables_wf(old(tables)@),
        tables_valid(slots(old(tables)@), store_insert_ids@),
    ensures
        all_tables_wf(final(tables)@),
        tables_valid(slots(final(tables)@), store_insert_ids@),
        ({
            let dropped = drop_buckets(slots(old(tables)@), max_row_id, protected@);
            &&& slots(final(tables)@) == dropped.tables
            &&& diff_views(r@) == dropped.diffs + dropped.pending
            &&& *final(budget) == less(*old(budget), dropped.num_bytes)
        }),
{
    let ghost all = slots(tables@);
    let mut diffs: Vec<StoreDiff> = Vec::new();
    let mut pending: Vec<StoreDiff> = Vec::new();
    let mut current: Option<u64> = None;
    let n: usize = tables.len();
    let mut i: usize = 0;
    proof {
        assert(diff_views(diffs@) =~= Seq::<DiffView>::empty());
        assert(diff_views(pending@) =~= Seq::<DiffView>::empty());
        assert(all.take(0) =~= Seq::<TableSlot>::empty());
        assert(slots(tables@) =~= all.take(0) + all.skip(0));
        lemma_drop_buckets_tables(all, store_insert_ids@, max_row_id, protected@);
    }
    while i < n
        invariant
            i <= n,
            n == tables@.len(),
            n == all.len(),
            all == slots(old(tables)@),
            tables_valid(all, store_insert_ids@),
            all_tables_wf(tables@),
            ({
                let st = drop_buckets(all.take(i as int), max_row_id, protected@);
                &&& slots(tables@) == st.tables + all.skip(i as int)
                &&& st.tables.len() == i
                &&& diff_views(diffs@) == st.diffs
                &&& diff_views(pending@) == st.pending
                &&& current == st.hash
                &&& *budget == less(*old(budget), st.num_bytes)
                &&& st.num_bytes >= 0
            }),
        decreases n - i,
    {
        let ghost st = drop_buckets(all.take(i as int), max_row_id, protected@);
        let hash: u64 = tables[i].entity_path_hash;
        proof {
            assert(all.take(i + 1).drop_last() =~= all.take(i as int));
            assert(all.take(i + 1).last() == all[i as int]);
            assert(slots(tables@)[i as int] == all[i as int]);
            assert(tables@[i as int].table.wf());
            lemma_table_of_valid(all, store_insert_ids@, i as int);
            lemma_drop_buckets_valid(all[i as int].table, max_row_id, protected@);
            lemma_less_twice(
                *old(budget),
                st.num_bytes,
                drop_buckets_spec(all[i as int].table, max_row_id, protected@).num_bytes,
            );
        }
        let ghost before = slots(tables@);
        let (removed, num_bytes) = tables[i].table.try_drop_bucket(max_row_id, protected);
        proof {
            let dropped = drop_buckets_spec(all[i as int].table, max_row_id, protected@);
            let new = TableSlot { hash: all[i as int].hash, table: dropped.table };
            assert(slots(tables@) =~= before.update(i as int, new));
            assert(slots(tables@) =~= st.tables.push(new) + all.skip(i + 1));
        }
        reduce(budget, num_bytes as u128);
        let same_entity = match current {
            Some(current) => current == hash,
            None => false,
        };
        if !same_entity {
            proof {
                lemma_diff_views_append(diffs@, pending@);
            }
            diffs.append(&mut pending);
            assert(diff_views(pending@) =~= Seq::<DiffView>::empty());
            current = Some(hash);
        }
        take_in(&mut pending, removed);
        i += 1;
    }
    proof {
        assert(all.take(i as int) =~= all);
        lemma_diff_views_append(diffs@, pending@);
        assert(slots(tables@) =~= drop_buckets(all, max_row_id, protected@).tables);
    }
    diffs.append(&mut pending);
    diffs
}

// --- Dropping a batch.

/// What dropping a batch of rows comes to.
///
/// With batching, whole buckets go first, unless some row among the batch is protected; whatever
/// rows of the batch are left go one by one, as long as there is anything left of the budget.
pub open spec fn drop_batch_spec(
    enable_batching: bool,
    tables: Seq<TableSlot>,
    budget: Option<u128>,
    batch: Seq<RowMeta>,
    batch_is_protected: bool,
    protected: Set<u128>,
) -> RowsDrop {
    let first = if enable_batching && batch.len() > 0 && !batch_is_protected {
        let dropped = drop_buckets(tables, batch.last().row_id, protected);
        RowsDrop {
            tables: dropped.tables,
            diffs: dropped.diffs + dropped.pending,
            budget: less(budget, dropped.num_bytes),
        }
    } else {
        RowsDrop { tables, diffs: Seq::empty(), budget }
    };
    if spent(first.budget) {
        first
    } else {
        let then = drop_rows(first.tables, first.budget, batch);
        RowsDrop { tables: then.tables, diffs: first.diffs + then.diffs, budget: then.budget }
    }
}

/// Drops a batch of rows, in ascending order of their ids.
fn drop_batch(
    enable_batching: bool,
    tables: &mut Vec<StoreTable>,
    budget: &mut Option<u128>,
    batch: &Vec<RowMetadata>,
    batch_is_protected: bool,
    protected: &RowIdSet,
    store_insert_ids: Ghost<bool>,
) -> (r: Vec<StoreDiff>)
    requires
        all_tables_wf(old(tables)@),
        tables_valid(slots(old(tables)@), store_insert_ids@),
        rows_temporal(metas(batch@)),
    ensures
        all_tables_wf(final(tables)@),
        tables_valid(slots(final(tables)@), store_insert_ids@),
        ({
            let dropped = drop_batch_spec(
                enable_batching,
                slots(old(tables)@),
                *old(budget),
                metas(batch@),
                batch_is_protected,
                protected@,
            );
            &&& slots(final(tables)@) == dropped.tables
            &&& diff_views(r@) == dropped.diffs
            &&& *final(budget) == dropped.budget
        }),
{
    let mut diffs: Vec<StoreDiff> = Vec::new();
    assert(diff_views(diffs@) =~= Seq::<DiffView>::empty());
    if enable_batching && batch.len() > 0 && !batch_is_protected {
        let max_row_id = batch[batch.len() - 1].row_id;
        diffs = drop_old_buckets(tables, budget, max_row_id, protected, store_insert_ids);
    }
    if is_spent(budget) {
        return diffs;
    }
    let mut more = drop_rows_one_by_one(tables, budget, batch, store_insert_ids);
    proof {
        lemma_diff_views_append(diffs@, more@);
    }
    diffs.append(&mut more);
    diffs
}

// --- The whole sweep.

/// How many different timelines there are times on.
pub open spec fn num_timelines(times: Seq<(Timeline, TimeInt)>) -> int
    decreases times.len(),
{
    if times.len() == 0 {
        0
    } else {
        let rest = times.drop_last();
        num_timelines(rest) + if has_timeline(rest, times.last().0) {
            0int
        } else {
            1
        }
    }
}

fn count_timelines(times: &Vec<(Timeline, TimeInt)>) -> (r: usize)
    ensures
        r == num_timelines(times@),
        r <= times@.len(),
{
    let mut seen: Vec<(Timeline, TimeInt)> = Vec::new();
    let mut count: usize = 0;
    let mut i: usize = 0;
    while i < times.len()
        invariant
            i <= times@.len(),
            seen@ == times@.take(i as int),
            count == num_timelines(times@.take(i as int)),
            count <= i,
        decreases times@.len() - i,
    {
        assert(times@.take(i + 1).drop_last() =~= times@.take(i as int));
        assert(times@.take(i + 1) =~= seen@.push(times@[i as int]));
        match find_timeline(&seen, &times[i].0) {
            Some(k) => {
                assert(seen@[k as int].0@ == times@[i as int].0@);
            },
            None => {
                count += 1;
            },
        }
        seen.push(times[i]);
        i += 1;
    }
    assert(times@.take(i as int) =~= times@);
    count
}

/// What a removed row took up in the registry, in bytes.
pub open spec fn diff_meta_size(diff: DiffView) -> int {
    meta_size(num_timelines(diff.times))
}

/// What removed rows took up in the registry, in bytes.
pub open spec fn diffs_meta_size(diffs: Seq<DiffView>) -> int
    decreases diffs.len(),
{
    if diffs.len() == 0 {
        0
    } else {
        diffs_meta_size(diffs.drop_last()) + diff_meta_size(diffs.last())
    }
}

/// The registry's own count of bytes once some were freed. It never goes below zero.
pub open spec fn heap_less(heap_size: int, num_bytes: int) -> int {
    if heap_size >= num_bytes {
        heap_size - num_bytes
    } else {
        0
    }
}

/// Where the collection has got to.
#[verifier::ext_equal]
pub struct Sweep {
    pub tables: Seq<TableSlot>,
    pub heap_size: int,
    pub budget: Option<u128>,
    pub diffs: Seq<DiffView>,
}

/// What is the same throughout a collection.
pub struct SweepRules {
    pub enable_batching: bool,
    pub batch_size: int,
    pub protected: Set<u128>,
    /// For each batch in turn, whether time was up after it.
    pub time_is_up: spec_fn(int) -> bool,
}

/// A batch is dropped; only what is reported counts against the registry and the budget.
pub open spec fn sweep_batch(
    rules: SweepRules,
    at: Sweep,
    batch: Seq<RowMeta>,
    batch_is_protected: bool,
) -> Sweep {
    let dropped = drop_batch_spec(
        rules.enable_batching,
        at.tables,
        at.budget,
        batch,
        batch_is_protected,
        rules.protected,
    );
    let num_bytes = diffs_meta_size(dropped.diffs);
    Sweep {
        tables: dropped.tables,
        heap_size: heap_less(at.heap_size, num_bytes),
        budget: less(dropped.budget, num_bytes),
        diffs: at.diffs + dropped.diffs,
    }
}

/// Goes through registered rows in order and drops them, batch by batch.
///
/// Rows that are protected are passed over. Whenever a batch is full it is dropped; once time is up
/// or the budget is used up after that, the collection ends. Whatever is in the batch at the end is
/// dropped as well.
pub open spec fn sweep_rows(
    rules: SweepRules,
    at: Sweep,
    rows: Seq<RowMeta>,
    batch: Seq<RowMeta>,
    batch_is_protected: bool,
    num_batches: int,
) -> Sweep
    decreases rows.len(),
{
    if rows.len() == 0 {
        sweep_batch(rules, at, batch, batch_is_protected)
    } else {
        let row = rows[0];
        let rest = rows.skip(1);
        if rules.protected.contains(row.row_id.bits) {
            sweep_rows(rules, at, rest, batch, true, num_batches)
        } else if batch.len() + 1 < rules.batch_size {
            sweep_rows(rules, at, rest, batch.push(row), batch_is_protected, num_batches)
        } else {
            let full = batch.push(row);
            let then = sweep_batch(rules, at, full, batch_is_protected);
            if (rules.time_is_up)(num_batches) || spent(then.budget) {
                sweep_batch(rules, then, full, batch_is_protected)
            } else {
                sweep_rows(rules, then, rest, Seq::empty(), false, num_batches + 1)
            }
        }
    }
}

/// How many rows go into a batch.
pub open spec fn batch_size_of(bucket_num_rows: u64) -> int {
    let twice = 2 * bucket_num_rows;
    if twice < 64 {
        64
    } else if twice > 4096 {
        4096
    } else {
        twice
    }
}

/// The registry without the rows that are reported as removed.
pub open spec fn without_rows(registry: Seq<RowMeta>, diffs: Seq<DiffView>) -> Seq<RowMeta>
    decreases diffs.len(),
{
    if diffs.len() == 0 {
        registry
    } else {
        let rest = without_rows(registry, diffs.drop_last());
        let i = metas_below(rest, diffs.last().row_id);
        if i < rest.len() && rest[i].row_id == diffs.last().row_id {
            rest.remove(i)
        } else {
            rest
        }
    }
}

/// What the clock shows.
///
/// Calls `web_time::Instant::now`. Nothing is promised of the result.
#[verifier::external_body]
pub(crate) fn clock_now() -> (r: web_time::Instant) {
    web_time::Instant::now()
}

/// How much time has passed since a moment, in nanoseconds.
///
/// Calls `web_time::Instant::elapsed`. Nothing is promised of the result.
#[verifier::external_body]
pub(crate) fn elapsed_nanos(since: &web_time::Instant) -> (r: u128) {
    since.elapsed().as_nanos()
}

/// `web_time::Instant`: a reading of the clock.
#[verifier::external_type_specification]
#[verifier::external_body]
pub struct ExInstant(web_time::Instant);

proof fn lemma_num_timelines_nonneg(times: Seq<(Timeline, TimeInt)>)
    ensures
        num_timelines(times) >= 0,
    decreases times.len(),
{
    if times.len() > 0 {
        lemma_num_timelines_nonneg(times.drop_last());
    }
}

pub proof fn lemma_diffs_meta_size_nonneg(diffs: Seq<DiffView>)
    ensures
        diffs_meta_size(diffs) >= 0,
    decreases diffs.len(),
{
    if diffs.len() > 0 {
        lemma_diffs_meta_size_nonneg(diffs.drop_last());
        lemma_num_timelines_nonneg(diffs.last().times);
    }
}

/// Takes what was dropped off the books, and puts it on the list.
fn charge(
    dropped: Vec<StoreDiff>,
    heap_size_bytes: &mut u64,
    budget: &mut Option<u128>,
    diffs: &mut Vec<StoreDiff>,
)
    ensures
        *final(heap_size_bytes) == heap_less(
            *old(heap_size_bytes) as int,
            diffs_meta_size(diff_views(dropped@)),
        ),
        *final(budget) == less(*old(budget), diffs_meta_size(diff_views(dropped@))),
        diff_views(final(diffs)@) == diff_views(old(diffs)@) + diff_views(dropped@),
{
    let ghost all = diff_views(dropped@);
    let mut i: usize = 0;
    while i < dropped.len()
        invariant
            i <= dropped@.len(),
            all == diff_views(dropped@),
            *heap_size_bytes == heap_less(
                *old(heap_size_bytes) as int,
                diffs_meta_size(all.take(i as int)),
            ),
            *budget == less(*old(budget), diffs_meta_size(all.take(i as int))),
        decreases dropped@.len() - i,
    {
        let num_timelines: usize = count_timelines(&dropped[i].times);
        let num_bytes: u128 = (REGISTRY_ROW_ID_BYTES + TIME_POINT_BYTES + PATH_HASH_BYTES) as u128
            + TIME_POINT_ENTRY_BYTES as u128 * num_timelines as u128;
        proof {
            assert(all.take(i + 1).drop_last() =~= all.take(i as int));
            assert(all.take(i + 1).last() == dropped@[i as int]@);
            lemma_diffs_meta_size_nonneg(all.take(i as int));
            lemma_less_twice(
                *old(budget),
                diffs_meta_size(all.take(i as int)),
                num_bytes as int,
            );
        }
        if *heap_size_bytes as u128 >= num_bytes {
            *heap_size_bytes = *heap_size_bytes - num_bytes as u64;
        } else {
            *heap_size_bytes = 0;
        }
        reduce(budget, num_bytes);
        i += 1;
    }
    proof {
        assert(all.take(i as int) =~= all);
        lemma_diff_views_append(diffs@, dropped@);
    }
    let mut dropped = dropped;
    diffs.append(&mut dropped);
}

pub proof fn lemma_sweep_batch_valid(
    rules: SweepRules,
    store_insert_ids: bool,
    at: Sweep,
    batch: Seq<RowMeta>,
    batch_is_protected: bool,
)
    requires
        tables_valid(at.tables, store_insert_ids),
        rows_temporal(batch),
    ensures
        tables_valid(
            sweep_batch(rules, at, batch, batch_is_protected).tables,
            store_insert_ids,
        ),
{
    let tables = if rules.enable_batching && batch.len() > 0 && !batch_is_protected {
        lemma_drop_buckets_tables(at.tables, store_insert_ids, batch.last().row_id, rules.protected);
        drop_buckets(at.tables, batch.last().row_id, rules.protected)
    } else {
        BucketsDrop {
            tables: at.tables,
            diffs: Seq::empty(),
            pending: Seq::empty(),
            hash: None,
            num_bytes: 0,
        }
    };
    let budget = less(at.budget, tables.num_bytes);
    lemma_drop_rows_valid(tables.tables, store_insert_ids, budget, batch);
    lemma_drop_rows_valid(tables.tables, store_insert_ids, at.budget, batch);
}

// --- How long it may take.

/// Whether a collection has taken all the time it may. If there is no bound, it never has.
pub open spec fn out_of_time(elapsed_nanos: u128, time_budget_nanos: u128) -> bool {
    time_budget_nanos < UNBOUNDED_NANOS && elapsed_nanos >= time_budget_nanos
}

/// Whether a collection has taken all the time it may. If there is no bound, it never has.
pub fn is_out_of_time(elapsed_nanos: u128, time_budget_nanos: u128) -> (r: bool)
    ensures
        r == out_of_time(elapsed_nanos, time_budget_nanos),
{
    time_budget_nanos < UNBOUNDED_NANOS && elapsed_nanos >= time_budget_nanos
}

/// For each full batch in turn, whether time was up after it, given the time that had passed.
pub open spec fn up_after(elapsed_nanos: spec_fn(int) -> u128, time_budget_nanos: u128) -> spec_fn(
    int,
) -> bool {
    |k: int| out_of_time(elapsed_nanos(k), time_budget_nanos)
}

/// Whether a clock gave these readings, one after each full batch.
pub open spec fn reads(clock: spec_fn(int) -> u128, readings: Seq<u128>) -> bool {
    forall|k: int| 0 <= k < readings.len() ==> #[trigger] clock(k) == readings[k]
}

/// Where a collection ends, given at which batches time is found to be up.
pub open spec fn swept(
    store: StoreView,
    bucket_num_rows: u64,
    enable_batching: bool,
    budget: Option<u128>,
    protected: Set<u128>,
    time_is_up: spec_fn(int) -> bool,
) -> Sweep {
    sweep_rows(
        SweepRules {
            enable_batching,
            batch_size: batch_size_of(bucket_num_rows),
            protected,
            time_is_up,
        },
        Sweep {
            tables: store.tables,
            heap_size: store.heap_size,
            budget,
            diffs: Seq::empty(),
        },
        store.registry,
        Seq::empty(),
        false,
        0,
    )
}

/// A store after a collection that ended in a given way.
pub open spec fn store_swept(store: StoreView, end: Sweep) -> StoreView {
    StoreView {
        registry: without_rows(store.registry, end.diffs),
        heap_size: end.heap_size,
        tables: end.tables,
        ..store
    }
}

impl RowMetadata {
    fn duplicate(&self) -> (r: RowMetadata)
        ensures
            r@ == self@,
    {
        RowMetadata {
            row_id: self.row_id,
            timepoint: self.timepoint.clone(),
            entity_path_hash: self.entity_path_hash,
        }
    }
}

impl MetadataRegistry {
    /// Takes the rows that are reported as removed off the register.
    fn remove_rows(&mut self, diffs: &Vec<StoreDiff>)
        requires
            registry_valid(metas(old(self).registry@)),
        ensures
            registry_valid(metas(final(self).registry@)),
            metas(final(self).registry@) == without_rows(
                metas(old(self).registry@),
                diff_views(diffs@),
            ),
            final(self).heap_size_bytes == old(self).heap_size_bytes,
    {
        let ghost all = diff_views(diffs@);
        let ghost start = metas(self.registry@);
        let mut i: usize = 0;
        while i < diffs.len()
            invariant
                i <= diffs@.len(),
                all == diff_views(diffs@),
                registry_valid(metas(self.registry@)),
                metas(self.registry@) == without_rows(start, all.take(i as int)),
                self.heap_size_bytes == old(self).heap_size_bytes,
            decreases diffs@.len() - i,
        {
            proof {
                assert(all.take(i + 1).drop_last() =~= all.take(i as int));
                assert(all.take(i + 1).last() == diffs@[i as int]@);
            }
            let ghost before = metas(self.registry@);
            let row_id = diffs[i].row_id;
            let at: usize = self.position(row_id);
            if at < self.registry.len() && self.registry[at].row_id.bits == row_id.bits {
                self.registry.remove(at);
                proof {
                    assert(metas(self.registry@) =~= before.remove(at as int));
                    lemma_registry_remove_valid(before, at as int);
                }
            }
            i += 1;
        }
        assert(all.take(i as int) =~= all);
    }
}

pub proof fn lemma_registry_remove_valid(registry: Seq<RowMeta>, at: int)
    requires
        registry_valid(registry),
        0 <= at < registry.len(),
    ensures
        registry_valid(registry.remove(at)),
{
    let out = registry.remove(at);
    assert forall|i: int, j: int|
        #![trigger out[i], out[j]]
        0 <= i < j < out.len() implies out[i].row_id.bits < out[j].row_id.bits by {
        let a = if i < at {
            i
        } else {
            i + 1
        };
        let b = if j < at {
            j
        } else {
            j + 1
        };
        assert(registry[a].row_id.bits < registry[b].row_id.bits);
    }
    assert forall|i: int| 0 <= i < out.len() implies crate::row::timelines_distinct(
        (#[trigger] out[i]).times,
    ) && times_temporal(out[i].times) by {
        let a = if i < at {
            i
        } else {
            i + 1
        };
        assert(times_temporal(registry[a].times));
    }
}

impl DataStore {
    /// Tries to drop at least as many bytes of data as the budget says.
    fn gc_drop_at_least_num_bytes(
        &mut self,
        options: &GarbageCollectionOptions,
        budget: Option<u128>,
        protected_rows: &RowIdSet,
    ) -> (r: Vec<StoreDiff>)
        requires
            old(self).wf(),
        ensures
            final(self).wf(),
            final(self).id == old(self).id,
            final(self).config == old(self).config,
            exists|elapsed_nanos: spec_fn(int) -> u128|
                ({
                    let end = #[trigger] swept(
                        old(self)@,
                        old(self).config.indexed_bucket_num_rows,
                        options.enable_batching,
                        budget,
                        protected_rows@,
                        up_after(elapsed_nanos, options.time_budget_nanos),
                    );
                    &&& final(self)@ == store_swept(old(self)@, end)
                    &&& diff_views(r@) == end.diffs
                }),
    {
        let ghost store = self@;
        let ghost flag = self.config.store_insert_ids;
        let ghost rows = store.registry;
        let ghost bucket_num_rows = self.config.indexed_bucket_num_rows;
        let mut diffs: Vec<StoreDiff> = Vec::new();
        let mut budget: Option<u128> = budget;
        let ghost start_budget = budget;
        let batch_size: usize = self.batch_size();
        let mut batch: Vec<RowMetadata> = Vec::new();
        let mut batch_is_protected = false;
        let ghost mut readings: Seq<u128> = Seq::empty();
        let ghost limit = options.time_budget_nanos;
        let mut done = false;
        let now = clock_now();
        let n: usize = self.metadata_registry.registry.len();
        let mut i: usize = 0;
        proof {
            assert(metas(batch@) =~= Seq::<RowMeta>::empty());
            assert(diff_views(diffs@) =~= Seq::<DiffView>::empty());
            assert(rows.skip(0) =~= rows);
        }
        while !done && i < n
            invariant
                i <= n,
                n == rows.len(),
                rows == store.registry,
                store == old(self)@,
                flag == old(self).config.store_insert_ids,
                bucket_num_rows == old(self).config.indexed_bucket_num_rows,
                batch_size == batch_size_of(bucket_num_rows),
                batch_size >= 64,
                batch@.len() <= batch_size,
                !done ==> batch@.len() < batch_size,
                rows_temporal(metas(batch@)),
                registry_valid(rows),
                self.id == old(self).id,
                self.config == old(self).config,
                self.type_registry == old(self).type_registry,
                self.static_tables == old(self).static_tables,
                self.insert_id == old(self).insert_id,
                self.gc_id == old(self).gc_id,
                self.event_id == old(self).event_id,
                self.metadata_registry.registry == old(self).metadata_registry.registry,
                metas(self.metadata_registry.registry@) == rows,
                all_tables_wf(self.tables@),
                tables_valid(slots(self.tables@), flag),
                limit == options.time_budget_nanos,
                forall|c: spec_fn(int) -> u128|
                    #![trigger swept(store, bucket_num_rows, options.enable_batching, start_budget, protected_rows@, up_after(c, limit))]
                    reads(c, readings) ==> ({
                        let rules = SweepRules {
                            enable_batching: options.enable_batching,
                            batch_size: batch_size as int,
                            protected: protected_rows@,
                            time_is_up: up_after(c, limit),
                        };
                        let at = Sweep {
                            tables: slots(self.tables@),
                            heap_size: self.metadata_registry.heap_size_bytes as int,
                            budget,
                            diffs: diff_views(diffs@),
                        };
                        swept(
                            store,
                            bucket_num_rows,
                            options.enable_batching,
                            start_budget,
                            protected_rows@,
                            up_after(c, limit),
                        ) == if done {
                            sweep_batch(rules, at, metas(batch@), batch_is_protected)
                        } else {
                            sweep_rows(
                                rules,
                                at,
                                rows.skip(i as int),
                                metas(batch@),
                                batch_is_protected,
                                readings.len() as int,
                            )
                        }
                    }),
            decreases n - i,
        {
            proof {
                assert(rows.skip(i as int)[0] == rows[i as int]);
                assert(rows.skip(i as int).skip(1) =~= rows.skip(i + 1));
                assert(rows[i as int] == self.metadata_registry.registry@[i as int]@);
                assert(times_temporal(rows[i as int].times));
            }
            if contains_row_id(protected_rows, self.metadata_registry.registry[i].row_id) {
                batch_is_protected = true;
                i += 1;
                continue;
            }
            let ghost old_batch = metas(batch@);
            batch.push(self.metadata_registry.registry[i].duplicate());
            proof {
                assert(metas(batch@) =~= old_batch.push(rows[i as int]));
            }
            i += 1;
            if batch.len() < batch_size {
                continue;
            }
            let dropped = drop_batch(
                options.enable_batching,
                &mut self.tables,
                &mut budget,
                &batch,
                batch_is_protected,
                protected_rows,
                Ghost(flag),
            );
            charge(dropped, &mut self.metadata_registry.heap_size_bytes, &mut budget, &mut diffs);
            let elapsed: u128 = elapsed_nanos(&now);
            let time_is_up = is_out_of_time(elapsed, options.time_budget_nanos);
            let ghost earlier = readings;
            proof {
                readings = readings.push(elapsed);
                assert forall|c: spec_fn(int) -> u128| #[trigger] reads(c, readings) implies reads(
                    c,
                    earlier,
                ) && up_after(c, limit)(earlier.len() as int) == time_is_up by {
                    assert(c(earlier.len() as int) == readings[earlier.len() as int]);
                    assert forall|k: int| 0 <= k < earlier.len() implies #[trigger] c(k)
                        == earlier[k] by {
                        assert(c(k) == readings[k]);
                    }
                }
            }
            if time_is_up || is_spent(&budget) {
                done = true;
            } else {
                batch.clear();
                batch_is_protected = false;
                assert(metas(batch@) =~= Seq::<RowMeta>::empty());
            }
        }
        let dropped = drop_batch(
            options.enable_batching,
            &mut self.tables,
            &mut budget,
            &batch,
            batch_is_protected,
            protected_rows,
            Ghost(flag),
        );
        charge(dropped, &mut self.metadata_registry.heap_size_bytes, &mut budget, &mut diffs);
        self.metadata_registry.remove_rows(&diffs);
        proof {
            let clock = |k: int| readings[k];
            assert(reads(clock, readings));
            let end = swept(
                store,
                bucket_num_rows,
                options.enable_batching,
                start_budget,
                protected_rows@,
                up_after(clock, limit),
            );
            assert(self@ =~= store_swept(store, end));
        }
        diffs
    }

    /// How many rows go into a batch.
    fn batch_size(&self) -> (r: usize)
        ensures
            r == batch_size_of(self.config.indexed_bucket_num_rows),
            r >= 64,
    {
        if self.config.indexed_bucket_num_rows < 32 {
            64
        } else if self.config.indexed_bucket_num_rows > 2048 {
            4096
        } else {
            (2 * self.config.indexed_bucket_num_rows) as usize
        }
    }
}

// --- A collection from start to end.

/// How many bytes a target asks for.
pub open spec fn budget_of(target: GarbageCollectionTarget) -> Option<u128> {
    match target {
        GarbageCollectionTarget::DropAtLeastBytes(num_bytes) => Some(num_bytes),
        GarbageCollectionTarget::Everything => None,
    }
}

/// What a collection leaves of a store, and what it reports.
#[verifier::ext_equal]
pub struct Collection {
    pub store: StoreView,
    pub diffs: Seq<DiffView>,
}

/// What a collection comes to, given at which batches time is found to be up.
pub open spec fn collected(
    store: StoreView,
    bucket_num_rows: u64,
    options: GarbageCollectionOptions,
    time_is_up: spec_fn(int) -> bool,
) -> Collection {
    let protected = protected_rows(
        store.tables,
        options.protect_latest as nat,
        options.dont_protect@,
    );
    let end = swept(
        store,
        bucket_num_rows,
        options.enable_batching,
        budget_of(options.target),
        protected,
        time_is_up,
    );
    let rest = store_swept(store, end);
    let purge = if options.purge_empty_tables {
        purge_spec(rest.tables)
    } else {
        Purge { tables: rest.tables, diffs: Seq::empty() }
    };
    let diffs = end.diffs + purge.diffs;
    Collection {
        store: StoreView {
            tables: purge.tables,
            gc_id: (store.gc_id + 1) as u64,
            event_id: plus_wrapping(store.event_id, diffs.len() as int),
            ..rest
        },
        diffs,
    }
}

/// The number of an event some events later, starting over when there is no larger number.
pub open spec fn plus_wrapping(n: u64, m: int) -> u64 {
    ((n + m) % 0x1_0000_0000_0000_0000) as u64
}

impl DataStore {
    /// Which state the store is in.
    pub fn generation(&self) -> (r: StoreGeneration)
        ensures
            r == (StoreGeneration { insert_id: self.insert_id, gc_id: self.gc_id }),
    {
        StoreGeneration { insert_id: self.insert_id, gc_id: self.gc_id }
    }

    /// Turns differences into events of this store.
    fn to_events(&mut self, diffs: Vec<StoreDiff>) -> (r: Vec<StoreEvent>)
        requires
            old(self).wf(),
        ensures
            final(self).wf(),
            final(self).id == old(self).id,
            final(self).config == old(self).config,
            final(self)@ == (StoreView {
                event_id: plus_wrapping(old(self).event_id, diffs@.len() as int),
                ..old(self)@
            }),
            event_diffs(r@) == diff_views(diffs@),
            forall|i: int|
                0 <= i < r@.len() ==> {
                    &&& (#[trigger] r@[i]).store_id == old(self).id
                    &&& r@[i].store_generation == (StoreGeneration {
                        insert_id: old(self).insert_id,
                        gc_id: old(self).gc_id,
                    })
                    &&& r@[i].event_id == plus_wrapping(old(self).event_id, i)
                },
    {
        let ghost all = diff_views(diffs@);
        let mut events: Vec<StoreEvent> = Vec::new();
        let mut i: usize = 0;
        while i < diffs.len()
            invariant
                i <= diffs@.len(),
                all == diff_views(diffs@),
                events@.len() == i,
                self.wf(),
                self.id == old(self).id,
                self.config == old(self).config,
                self@ == (StoreView {
                    event_id: plus_wrapping(old(self).event_id, i as int),
                    ..old(self)@
                }),
                forall|j: int|
                    0 <= j < i ==> {
                        &&& (#[trigger] events@[j]).diff@ == all[j]
                        &&& events@[j].store_id == old(self).id
                        &&& events@[j].store_generation == (StoreGeneration {
                            insert_id: old(self).insert_id,
                            gc_id: old(self).gc_id,
                        })
                        &&& events@[j].event_id == plus_wrapping(old(self).event_id, j)
                    },
            decreases diffs@.len() - i,
        {
            events.push(
                StoreEvent {
                    store_id: self.id.clone(),
                    store_generation: self.generation(),
                    event_id: self.event_id,
                    diff: diffs[i].clone(),
                },
            );
            self.event_id = self.event_id.wrapping_add(1);
            proof {
                lemma_plus_wrapping_step(old(self).event_id, i as int);
            }
            i += 1;
        }
        assert(event_diffs(events@) =~= all);
        events
    }

    /// Collects garbage.
    ///
    /// Rows are dropped one after the other in the order of their ids, that is, by the clocks of
    /// whoever logged them, across all entities and timelines. Protected rows stay. What is dropped
    /// is only the store's own reference to the data.
    ///
    /// Returns what was removed, and how much less the store holds than before.
    pub fn gc(&mut self, options: &GarbageCollectionOptions) -> (r: (
        Vec<StoreEvent>,
        DataStoreStats,
    ))
        requires
            old(self).wf(),
            old(self).gc_id < u64::MAX,
        ensures
            final(self).wf(),
            final(self).id == old(self).id,
            final(self).config == old(self).config,
            exists|elapsed_nanos: spec_fn(int) -> u128|
                ({
                    let end = #[trigger] collected(
                        old(self)@,
                        old(self).config.indexed_bucket_num_rows,
                        *options,
                        up_after(elapsed_nanos, options.time_budget_nanos),
                    );
                    &&& final(self)@ == end.store
                    &&& event_diffs(r.0@) == end.diffs
                }),
            forall|i: int|
                0 <= i < r.0@.len() ==> {
                    &&& (#[trigger] r.0@[i]).store_id == old(self).id
                    &&& r.0@[i].store_generation == (StoreGeneration {
                        insert_id: old(self).insert_id,
                        gc_id: (old(self).gc_id + 1) as u64,
                    })
                    &&& r.0@[i].event_id == plus_wrapping(old(self).event_id, i)
                },
            r.1 == stats_minus(stats_of(old(self)@), stats_of(final(self)@)),
    {
        let ghost store = self@;
        self.gc_id = self.gc_id + 1;
        let stats_before = DataStoreStats::from_store(self);
        let protected = self.find_all_protected_rows(options.protect_latest, &options.dont_protect);
        let budget: Option<u128> = match options.target {
            GarbageCollectionTarget::DropAtLeastBytes(num_bytes) => Some(num_bytes),
            GarbageCollectionTarget::Everything => None,
        };
        let ghost before = self@;
        let mut diffs = self.gc_drop_at_least_num_bytes(options, budget, &protected);
        let ghost elapsed = choose|elapsed_nanos: spec_fn(int) -> u128|
            ({
                let end = #[trigger] swept(
                    before,
                    self.config.indexed_bucket_num_rows,
                    options.enable_batching,
                    budget,
                    protected@,
                    up_after(elapsed_nanos, options.time_budget_nanos),
                );
                &&& self@ == store_swept(before, end)
                &&& diff_views(diffs@) == end.diffs
            });
        let ghost clock = up_after(elapsed, options.time_budget_nanos);
        let ghost end = collected(store, self.config.indexed_bucket_num_rows, *options, clock);
        proof {
            assert(swept(
                before,
                self.config.indexed_bucket_num_rows,
                options.enable_batching,
                budget,
                protected@,
                clock,
            ) == swept(
                store,
                self.config.indexed_bucket_num_rows,
                options.enable_batching,
                budget,
                protected@,
                clock,
            ));
        }
        if options.purge_empty_tables {
            let mut purged = self.purge_empty_tables();
            proof {
                lemma_diff_views_append(diffs@, purged@);
            }
            diffs.append(&mut purged);
        } else {
            assert(diff_views(diffs@) + Seq::<DiffView>::empty() =~= diff_views(diffs@));
        }
        let events = self.to_events(diffs);
        assert(self@ =~= end.store);
        let stats_after = DataStoreStats::from_store(self);
        (events, stats_before.minus(&stats_after))
    }
}

pub proof fn lemma_plus_wrapping_step(n: u64, i: int)
    requires
        i >= 0,
    ensures
        plus_wrapping(n, i + 1) == (if plus_wrapping(n, i) == u64::MAX {
            0
        } else {
            plus_wrapping(n, i) + 1
        }),
        plus_wrapping(n, 0) == n,
{
    let m = 0x1_0000_0000_0000_0000int;
    vstd::arithmetic::div_mod::lemma_add_mod_noop_right(1, n + i, m);
    assert((1 + (n + i) % m) % m == (1 + (n + i)) % m);
    if (n + i) % m == m - 1 {
        assert((1 + (n + i) % m) % m == 0);
    } else {
        vstd::arithmetic::div_mod::lemma_small_mod((1 + (n + i) % m) as nat, m as nat);
    }
}

} // verus!

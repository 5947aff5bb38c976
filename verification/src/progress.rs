//! What a collection gets done: which rows it drops, and in which order.
use crate::bucket::{bucket_without, row_index};
use crate::gc::{
    batch_size_of, budget_of, collected, diffs_meta_size, drop_batch_spec, drop_buckets,
    drop_row_at_times, drop_rows, less, merge_diffs, rows_temporal, spent, sweep_batch, sweep_rows,
    swept, up_after, GarbageCollectionOptions, GarbageCollectionTarget, Sweep, SweepRules,
    UNBOUNDED_NANOS,
};
use crate::names::{RowId, TimeInt, Timeline, TIME_MIN};
use crate::protect::{protected_rows, purge_spec, put_all_purged, put_purged};
use crate::row::{times_temporal, DiffView};
use crate::stats::tables_size;
use crate::store::{
    is_table_of, registry_valid, slot_index, tables_valid, RowMeta, StoreView, TableSlot,
};
use crate::table::{
    bucket_diffs, bucket_of, drop_buckets_spec, drop_row_spec, droppable_buckets, kept_buckets,
    kept_indices, TableBucket, TableView,
};
use vstd::prelude::*;

verus! {

// --- Rows that are gone.

/// Whether one table holds no rows but those of another.
pub open spec fn table_shrinks(before: TableView, after: TableView) -> bool {
    &&& after.timeline == before.timeline
    &&& forall|row_id: RowId, time: i64| #[trigger]
        after.has_row(row_id, time) ==> before.has_row(row_id, time)
}

/// Whether that is so for all of several tables.
pub open spec fn tables_shrink(before: Seq<TableSlot>, after: Seq<TableSlot>) -> bool {
    &&& after.len() == before.len()
    &&& forall|t: int|
        0 <= t < before.len() ==> (#[trigger] after[t]).hash == before[t].hash && table_shrinks(
            before[t].table,
            after[t].table,
        )
}

/// Whether no table of an entity holds a row at a time that it was logged with.
pub open spec fn gone_at(tables: Seq<TableSlot>, row: RowMeta, at: (Timeline, TimeInt)) -> bool {
    forall|t: int|
        0 <= t < tables.len() && is_table_of(#[trigger] tables[t], row.hash, at.0@)
            ==> !tables[t].table.has_row(row.row_id, at.1.value)
}

/// Whether no table of an entity holds a row at any of the times that it was logged with.
pub open spec fn gone(tables: Seq<TableSlot>, row: RowMeta) -> bool {
    forall|j: int| 0 <= j < row.times.len() ==> gone_at(tables, row, #[trigger] row.times[j])
}

pub proof fn lemma_shrink_trans(a: Seq<TableSlot>, b: Seq<TableSlot>, c: Seq<TableSlot>)
    requires
        tables_shrink(a, b),
        tables_shrink(b, c),
    ensures
        tables_shrink(a, c),
{
    assert forall|t: int| 0 <= t < a.len() implies (#[trigger] c[t]).hash == a[t].hash
        && table_shrinks(a[t].table, c[t].table) by {
        assert(b[t].hash == a[t].hash);
        assert forall|row_id: RowId, time: i64| #[trigger]
            c[t].table.has_row(row_id, time) implies a[t].table.has_row(row_id, time) by {
            assert(b[t].table.has_row(row_id, time));
        }
    }
}

/// What is gone does not come back.
proof fn lemma_still_gone(before: Seq<TableSlot>, after: Seq<TableSlot>, row: RowMeta)
    requires
        tables_shrink(before, after),
        gone(before, row),
    ensures
        gone(after, row),
{
    assert forall|j: int| 0 <= j < row.times.len() implies gone_at(
        after,
        row,
        #[trigger] row.times[j],
    ) by {
        lemma_still_gone_at(before, after, row, row.times[j]);
    }
}

proof fn lemma_still_gone_at(
    before: Seq<TableSlot>,
    after: Seq<TableSlot>,
    row: RowMeta,
    at: (Timeline, TimeInt),
)
    requires
        tables_shrink(before, after),
        gone_at(before, row, at),
    ensures
        gone_at(after, row, at),
{
    assert forall|t: int|
        0 <= t < after.len() && is_table_of(#[trigger] after[t], row.hash, at.0@) implies !after[t].table.has_row(
        row.row_id,
        at.1.value,
    ) by {
        assert(is_table_of(before[t], row.hash, at.0@));
    }
}

/// A row lies in the bucket that is responsible for its time.
pub proof fn lemma_row_in_bucket_of(table: TableView, b: int, i: int)
    requires
        table.valid(),
        0 <= b < table.buckets.len(),
        0 <= i < table.buckets[b].bucket.rows.len(),
    ensures
        b == bucket_of(table.buckets, table.buckets[b].bucket.rows[i].time),
        table.buckets[b].bucket.rows[i].time >= TIME_MIN,
{
    reveal(TableView::valid);
    let time = table.buckets[b].bucket.rows[i].time;
    assert(table.buckets[b].bucket.valid());
    crate::table::lemma_bucket_of(table.buckets, time);
    let k = bucket_of(table.buckets, time);
    if b < k {
        assert(time < table.buckets[b + 1].start);
        if b + 1 < k {
            assert(table.buckets[b + 1].start < table.buckets[k].start);
        }
    } else if k < b {
        assert(table.buckets[b].start > time);
    }
}

/// A row that is dropped is gone, and no other one appears.
proof fn lemma_drop_row_shrinks(table: TableView, row_id: RowId, time: TimeInt)
    requires
        table.valid(),
        time.value >= TIME_MIN,
    ensures
        table_shrinks(table, drop_row_spec(table, row_id, time).table),
        !drop_row_spec(table, row_id, time).table.has_row(row_id, time.value),
{
    let after = drop_row_spec(table, row_id, time).table;
    let k = bucket_of(table.buckets, time.value);
    crate::table::lemma_table_bucket_of(table, time.value);
    let bucket = table.buckets[k].bucket;
    let found = row_index(bucket.rows, row_id, time.value);
    assert forall|b: int, i: int|
        0 <= b < table.buckets.len() && 0 <= i < table.buckets[b].bucket.rows.len() && (
        #[trigger] table.buckets[b].bucket.rows[i]).row_id == row_id
            && table.buckets[b].bucket.rows[i].time == time.value implies b == k && found == Some(
        i,
    ) by {
        lemma_row_in_bucket_of(table, b, i);
        let m = found->0;
        if m < i {
            assert(bucket.rows[m].row_id != bucket.rows[i].row_id);
        } else if i < m {
            assert(bucket.rows[i].row_id != bucket.rows[m].row_id);
        }
    }
    if let Some(at) = found {
        let left = bucket_without(bucket, at);
        let removes = table.buckets.len() > 1 && left.rows.len() == 0;
        assert forall|b: int, i: int|
            0 <= b < after.buckets.len() && 0 <= i
                < after.buckets[b].bucket.rows.len() implies exists|b2: int, i2: int|
            0 <= b2 < table.buckets.len() && 0 <= i2 < table.buckets[b2].bucket.rows.len() && (b2,
            i2) != (k, at) && #[trigger] table.buckets[b2].bucket.rows[i2] == (
            #[trigger] after.buckets[b].bucket.rows[i]) by {
            let row = after.buckets[b].bucket.rows[i];
            if removes {
                let b2 = if b < k {
                    b
                } else {
                    b + 1
                };
                assert(after.buckets[b].bucket == table.buckets.remove(k)[b].bucket);
                assert(table.buckets[b2].bucket.rows[i] == row);
            } else if b == k {
                let i2 = if i < at {
                    i
                } else {
                    i + 1
                };
                assert(table.buckets[b].bucket.rows[i2] == row);
            } else {
                assert(table.buckets[b].bucket.rows[i] == row);
            }
        }
        assert forall|id: RowId, t: i64| #[trigger] after.has_row(id, t) implies table.has_row(
            id,
            t,
        ) by {
            let (b, i) = choose|b: int, i: int|
                0 <= b < after.buckets.len() && 0 <= i < after.buckets[b].bucket.rows.len() && (
                #[trigger] after.buckets[b].bucket.rows[i]).row_id == id
                    && after.buckets[b].bucket.rows[i].time == t;
            let (b2, i2) = choose|b2: int, i2: int|
                0 <= b2 < table.buckets.len() && 0 <= i2 < table.buckets[b2].bucket.rows.len() && (
                b2, i2) != (k, at) && #[trigger] table.buckets[b2].bucket.rows[i2]
                    == after.buckets[b].bucket.rows[i];
            assert(table.buckets[b2].bucket.rows[i2].row_id == id);
        }
        if after.has_row(row_id, time.value) {
            let (b, i) = choose|b: int, i: int|
                0 <= b < after.buckets.len() && 0 <= i < after.buckets[b].bucket.rows.len() && (
                #[trigger] after.buckets[b].bucket.rows[i]).row_id == row_id
                    && after.buckets[b].bucket.rows[i].time == time.value;
            let (b2, i2) = choose|b2: int, i2: int|
                0 <= b2 < table.buckets.len() && 0 <= i2 < table.buckets[b2].bucket.rows.len() && (
                b2, i2) != (k, at) && #[trigger] table.buckets[b2].bucket.rows[i2]
                    == after.buckets[b].bucket.rows[i];
            assert(table.buckets[b2].bucket.rows[i2].row_id == row_id);
        }
    }
}

proof fn lemma_kept_are_buckets(buckets: Seq<TableBucket>, max: RowId, protected: Set<u128>)
    ensures
        forall|b: int|
            0 <= b < kept_buckets(buckets, max, protected).len() ==> buckets.contains(
                #[trigger] kept_buckets(buckets, max, protected)[b],
            ),
    decreases buckets.len(),
{
    if buckets.len() > 0 {
        let init = buckets.drop_last();
        lemma_kept_are_buckets(init, max, protected);
        let rest = kept_buckets(init, max, protected);
        let all = kept_buckets(buckets, max, protected);
        assert forall|b: int| 0 <= b < all.len() implies buckets.contains(#[trigger] all[b]) by {
            if b < rest.len() {
                assert(init.contains(rest[b]));
                assert(buckets[init.index_of(rest[b])] == all[b]);
            } else {
                assert(buckets[buckets.len() - 1] == all[b]);
            }
        }
    }
}

proof fn lemma_drop_buckets_spec_shrinks(table: TableView, max: RowId, protected: Set<u128>)
    ensures
        table_shrinks(table, drop_buckets_spec(table, max, protected).table),
{
    let after = drop_buckets_spec(table, max, protected).table;
    let kept = kept_buckets(table.buckets, max, protected);
    lemma_kept_are_buckets(table.buckets, max, protected);
    assert forall|id: RowId, t: i64| #[trigger] after.has_row(id, t) implies table.has_row(id, t) by {
        let (b, i) = choose|b: int, i: int|
            0 <= b < after.buckets.len() && 0 <= i < after.buckets[b].bucket.rows.len() && (
            #[trigger] after.buckets[b].bucket.rows[i]).row_id == id
                && after.buckets[b].bucket.rows[i].time == t;
        assert(kept.len() > 0);
        assert(after.buckets[b].bucket == kept[b].bucket);
        assert(table.buckets.contains(kept[b]));
        let b2 = table.buckets.index_of(kept[b]);
        assert(table.buckets[b2].bucket.rows[i].row_id == id);
    }
}

pub proof fn lemma_drop_buckets_shrinks(
    tables: Seq<TableSlot>,
    store_insert_ids: bool,
    max: RowId,
    protected: Set<u128>,
)
    requires
        tables_valid(tables, store_insert_ids),
    ensures
        tables_shrink(tables, drop_buckets(tables, max, protected).tables),
{
    crate::gc::lemma_drop_buckets_tables(tables, store_insert_ids, max, protected);
    let after = drop_buckets(tables, max, protected).tables;
    assert forall|t: int| 0 <= t < tables.len() implies (#[trigger] after[t]).hash
        == tables[t].hash && table_shrinks(tables[t].table, after[t].table) by {
        lemma_drop_buckets_spec_shrinks(tables[t].table, max, protected);
    }
}

pub proof fn lemma_drop_row_at_times_shrinks(
    tables: Seq<TableSlot>,
    store_insert_ids: bool,
    row: RowMeta,
    times: Seq<(Timeline, TimeInt)>,
)
    requires
        tables_valid(tables, store_insert_ids),
        times_temporal(times),
    ensures
        tables_shrink(tables, drop_row_at_times(tables, row.hash, row.row_id, times).tables),
        forall|j: int|
            0 <= j < times.len() ==> gone_at(
                drop_row_at_times(tables, row.hash, row.row_id, times).tables,
                row,
                #[trigger] times[j],
            ),
    decreases times.len(),
{
    if times.len() > 0 {
        let init = times.drop_last();
        assert(times_temporal(init)) by {
            assert forall|i: int| 0 <= i < init.len() implies (#[trigger] init[i]).1.value
                >= TIME_MIN by {
                assert(times[i].1.value >= TIME_MIN);
            }
        }
        assert(times[times.len() - 1].1.value >= TIME_MIN);
        lemma_drop_row_at_times_shrinks(tables, store_insert_ids, row, init);
        crate::gc::lemma_drop_row_at_times_valid(
            tables,
            store_insert_ids,
            row.hash,
            row.row_id,
            init,
        );
        let st = drop_row_at_times(tables, row.hash, row.row_id, init);
        let after = drop_row_at_times(tables, row.hash, row.row_id, times).tables;
        let (timeline, time) = times.last();
        match slot_index(st.tables, row.hash, timeline@) {
            Some(i) => {
                assert(0 <= i < st.tables.len() && is_table_of(st.tables[i], row.hash, timeline@));
                crate::gc::lemma_table_of_valid(st.tables, store_insert_ids, i);
                lemma_drop_row_shrinks(st.tables[i].table, row.row_id, time);
                assert(tables_shrink(st.tables, after)) by {
                    assert forall|t: int| 0 <= t < st.tables.len() implies (
                    #[trigger] after[t]).hash == st.tables[t].hash && table_shrinks(
                        st.tables[t].table,
                        after[t].table,
                    ) by {}
                }
                assert(gone_at(after, row, times.last())) by {
                    assert forall|t: int|
                        0 <= t < after.len() && is_table_of(
                            #[trigger] after[t],
                            row.hash,
                            timeline@,
                        ) implies !after[t].table.has_row(row.row_id, time.value) by {
                        assert(is_table_of(st.tables[t], row.hash, timeline@));
                        crate::store::lemma_slot_index(
                            st.tables,
                            store_insert_ids,
                            row.hash,
                            timeline@,
                            t,
                        );
                    }
                }
                lemma_shrink_trans(tables, st.tables, after);
            },
            None => {
                assert(gone_at(after, row, times.last())) by {
                    assert forall|t: int|
                        0 <= t < after.len() && is_table_of(
                            #[trigger] after[t],
                            row.hash,
                            timeline@,
                        ) implies !after[t].table.has_row(row.row_id, time.value) by {}
                }
                assert(tables_shrink(st.tables, after));
            },
        }
        assert forall|j: int| 0 <= j < times.len() implies gone_at(
            after,
            row,
            #[trigger] times[j],
        ) by {
            if j < init.len() {
                assert(gone_at(st.tables, row, init[j]));
                lemma_still_gone_at(st.tables, after, row, init[j]);
            }
        }
    }
}

/// How many rows are looked at before the budget is used up.
pub open spec fn num_dropped(tables: Seq<TableSlot>, budget: Option<u128>, rows: Seq<RowMeta>)
    -> int
    decreases rows.len(),
{
    if rows.len() == 0 {
        0
    } else if rows.len() > 1 && spent(drop_rows(tables, budget, rows.drop_last()).budget) {
        num_dropped(tables, budget, rows.drop_last())
    } else {
        rows.len() as int
    }
}

/// Whether all reports from some point on are of some of the first rows.
pub open spec fn reports_only(diffs: Seq<DiffView>, from: int, rows: Seq<RowMeta>, n: int) -> bool {
    forall|d: int|
        from <= d < diffs.len() && 0 <= d ==> is_id_of(rows, n, (#[trigger] diffs[d]).row_id)
}

pub open spec fn is_id_of(rows: Seq<RowMeta>, n: int, row_id: RowId) -> bool {
    exists|i: int| 0 <= i < n && i < rows.len() && (#[trigger] rows[i]).row_id == row_id
}

/// What is reported of a dropped row carries its id.
pub proof fn lemma_drop_row_at_times_reports(
    tables: Seq<TableSlot>,
    store_insert_ids: bool,
    row: RowMeta,
    times: Seq<(Timeline, TimeInt)>,
)
    requires
        tables_valid(tables, store_insert_ids),
        times_temporal(times),
    ensures
        drop_row_at_times(tables, row.hash, row.row_id, times).diff matches Some(diff)
            ==> diff.row_id == row.row_id && diff.kind is Deletion,
    decreases times.len(),
{
    if times.len() > 0 {
        let init = times.drop_last();
        assert(times_temporal(init)) by {
            assert forall|i: int| 0 <= i < init.len() implies (#[trigger] init[i]).1.value
                >= TIME_MIN by {
                assert(times[i].1.value >= TIME_MIN);
            }
        }
        lemma_drop_row_at_times_reports(tables, store_insert_ids, row, init);
    }
}

pub proof fn lemma_drop_rows(
    tables: Seq<TableSlot>,
    store_insert_ids: bool,
    budget: Option<u128>,
    rows: Seq<RowMeta>,
)
    requires
        tables_valid(tables, store_insert_ids),
        rows_temporal(rows),
    ensures
        ({
            let end = drop_rows(tables, budget, rows);
            let n = num_dropped(tables, budget, rows);
            &&& 0 <= n <= rows.len()
            &&& n < rows.len() ==> spent(end.budget)
            &&& tables_shrink(tables, end.tables)
            &&& forall|i: int| 0 <= i < n ==> gone(end.tables, #[trigger] rows[i])
            &&& reports_only(end.diffs, 0, rows, n)
        }),
    decreases rows.len(),
{
    if rows.len() > 0 {
        let init = rows.drop_last();
        assert(rows_temporal(init)) by {
            assert forall|i: int| 0 <= i < init.len() implies times_temporal(
                (#[trigger] init[i]).times,
            ) by {
                assert(times_temporal(rows[i].times));
            }
        }
        lemma_drop_rows(tables, store_insert_ids, budget, init);
        crate::gc::lemma_drop_rows_valid(tables, store_insert_ids, budget, init);
        let st = drop_rows(tables, budget, init);
        let end = drop_rows(tables, budget, rows);
        let m = num_dropped(tables, budget, init);
        let n = num_dropped(tables, budget, rows);
        if rows.len() > 1 && spent(st.budget) {
            assert forall|i: int| 0 <= i < n implies gone(end.tables, #[trigger] rows[i]) by {
                assert(init[i] == rows[i]);
            }
            assert forall|d: int| 0 <= d < end.diffs.len() implies is_id_of(
                rows,
                n,
                (#[trigger] end.diffs[d]).row_id,
            ) by {
                assert(is_id_of(init, m, st.diffs[d].row_id));
                let i = choose|i: int|
                    0 <= i < m && i < init.len() && (#[trigger] init[i]).row_id
                        == st.diffs[d].row_id;
                assert(rows[i].row_id == end.diffs[d].row_id);
            }
        } else {
            let row = rows[rows.len() - 1];
            assert(times_temporal(row.times));
            assert(m == init.len());
            lemma_drop_row_at_times_shrinks(st.tables, store_insert_ids, row, row.times);
            lemma_drop_row_at_times_reports(st.tables, store_insert_ids, row, row.times);
            lemma_shrink_trans(tables, st.tables, end.tables);
            assert forall|i: int| 0 <= i < n implies gone(end.tables, #[trigger] rows[i]) by {
                if i < init.len() {
                    assert(gone(st.tables, init[i]));
                    lemma_still_gone(st.tables, end.tables, rows[i]);
                }
            }
            assert forall|d: int| 0 <= d < end.diffs.len() implies is_id_of(
                rows,
                n,
                (#[trigger] end.diffs[d]).row_id,
            ) by {
                if d < st.diffs.len() {
                    assert(is_id_of(init, m, st.diffs[d].row_id));
                    let i = choose|i: int|
                        0 <= i < m && i < init.len() && (#[trigger] init[i]).row_id
                            == st.diffs[d].row_id;
                    assert(rows[i].row_id == end.diffs[d].row_id);
                } else {
                    assert(rows[rows.len() - 1].row_id == end.diffs[d].row_id);
                }
            }
        }
    } else {
        assert(tables_shrink(tables, tables));
    }
}

// --- A sweep.

/// Whether time was ever found to be up.
pub open spec fn time_ran_out(time_is_up: spec_fn(int) -> bool) -> bool {
    exists|k: int| 0 <= k && #[trigger] time_is_up(k)
}

/// Law: a collection without a bound on its time never runs out of it, and one that may take no time
/// at all is out of it after every batch.
pub proof fn law_time_runs_out_by_the_bound(
    elapsed_nanos: spec_fn(int) -> u128,
    time_budget_nanos: u128,
)
    ensures
        time_budget_nanos >= UNBOUNDED_NANOS ==> !time_ran_out(
            up_after(elapsed_nanos, time_budget_nanos),
        ),
        time_budget_nanos == 0 ==> forall|k: int| #[trigger]
            up_after(elapsed_nanos, time_budget_nanos)(k),
{
}

/// Whether a sweep got as far as the first `n` of the rows that were waiting: those of them that are
/// not protected are gone.
pub open spec fn swept_up_to(
    tables: Seq<TableSlot>,
    protected: Set<u128>,
    rows: Seq<RowMeta>,
    n: int,
) -> bool {
    &&& 0 <= n <= rows.len()
    &&& forall|i: int|
        0 <= i < n && !protected.contains((#[trigger] rows[i]).row_id.bits) ==> gone(
            tables,
            rows[i],
        )
}

/// How many rows of a batch are gone for sure.
pub open spec fn num_swept(
    rules: SweepRules,
    at: Sweep,
    batch: Seq<RowMeta>,
    batch_is_protected: bool,
) -> int {
    if rules.enable_batching && batch.len() > 0 && !batch_is_protected {
        let dropped = drop_buckets(at.tables, batch.last().row_id, rules.protected);
        let budget = less(at.budget, dropped.num_bytes);
        if spent(budget) {
            0
        } else {
            num_dropped(dropped.tables, budget, batch)
        }
    } else if spent(at.budget) {
        0
    } else {
        num_dropped(at.tables, at.budget, batch)
    }
}

pub proof fn lemma_sweep_batch(
    rules: SweepRules,
    store_insert_ids: bool,
    at: Sweep,
    batch: Seq<RowMeta>,
    batch_is_protected: bool,
)
    requires
        tables_valid(at.tables, store_insert_ids),
        rows_temporal(batch),
    ensures
        ({
            let end = sweep_batch(rules, at, batch, batch_is_protected);
            let n = num_swept(rules, at, batch, batch_is_protected);
            &&& tables_valid(end.tables, store_insert_ids)
            &&& tables_shrink(at.tables, end.tables)
            &&& 0 <= n <= batch.len()
            &&& n < batch.len() ==> spent(end.budget)
            &&& spent(at.budget) ==> spent(end.budget)
            &&& forall|i: int| 0 <= i < n ==> gone(end.tables, #[trigger] batch[i])
            &&& at.diffs.len() <= end.diffs.len()
            &&& forall|d: int|
                0 <= d < at.diffs.len() ==> #[trigger] end.diffs[d] == at.diffs[d]
            &&& !rules.enable_batching ==> reports_only(
                end.diffs,
                at.diffs.len() as int,
                batch,
                n,
            )
        }),
{
    let end = sweep_batch(rules, at, batch, batch_is_protected);
    let n = num_swept(rules, at, batch, batch_is_protected);
    crate::gc::lemma_sweep_batch_valid(rules, store_insert_ids, at, batch, batch_is_protected);
    let dropped = drop_batch_spec(
        rules.enable_batching,
        at.tables,
        at.budget,
        batch,
        batch_is_protected,
        rules.protected,
    );
    crate::gc::lemma_diffs_meta_size_nonneg(dropped.diffs);
    let whole = rules.enable_batching && batch.len() > 0 && !batch_is_protected;
    let (tables, budget) = if whole {
        let max = batch.last().row_id;
        crate::gc::lemma_drop_buckets_tables(at.tables, store_insert_ids, max, rules.protected);
        lemma_drop_buckets_shrinks(at.tables, store_insert_ids, max, rules.protected);
        let buckets = drop_buckets(at.tables, max, rules.protected);
        (buckets.tables, less(at.budget, buckets.num_bytes))
    } else {
        assert(tables_shrink(at.tables, at.tables));
        (at.tables, at.budget)
    };
    lemma_drop_rows(tables, store_insert_ids, budget, batch);
    if !spent(budget) {
        lemma_shrink_trans(at.tables, tables, drop_rows(tables, budget, batch).tables);
    }
    if !rules.enable_batching {
        assert forall|d: int| at.diffs.len() <= d < end.diffs.len() && 0 <= d implies is_id_of(
            batch,
            n,
            (#[trigger] end.diffs[d]).row_id,
        ) by {
            let k = d - at.diffs.len();
            assert(end.diffs[d] == dropped.diffs[k]);
            assert(!spent(budget));
            let rows = drop_rows(tables, budget, batch);
            assert(dropped.diffs =~= rows.diffs);
            assert(is_id_of(batch, n, rows.diffs[k].row_id));
        }
    }
}

/// Whether a sweep that has rows waiting ends with all of them looked at, unless the budget was used
/// up or time was up, and whether all that it reports is of rows that it had got to.
pub open spec fn sweep_ends_well(
    rules: SweepRules,
    at: Sweep,
    end: Sweep,
    rows: Seq<RowMeta>,
    n: int,
) -> bool {
    &&& swept_up_to(end.tables, rules.protected, rows, n)
    &&& n == rows.len() || spent(end.budget) || time_ran_out(rules.time_is_up)
    &&& !rules.enable_batching ==> forall|d: int|
        at.diffs.len() <= d < end.diffs.len() ==> is_unprotected_id_of(
            rows,
            n,
            (#[trigger] end.diffs[d]).row_id,
            rules.protected,
        )
}

pub open spec fn is_unprotected_id_of(
    rows: Seq<RowMeta>,
    n: int,
    row_id: RowId,
    protected: Set<u128>,
) -> bool {
    is_id_of(rows, n, row_id) && !protected.contains(row_id.bits)
}

proof fn lemma_id_of_more(
    some: Seq<RowMeta>,
    n: int,
    all: Seq<RowMeta>,
    m: int,
    offset: int,
    row_id: RowId,
)
    requires
        is_id_of(some, n, row_id),
        0 <= offset,
        offset + n <= m,
        forall|i: int|
            0 <= i < n && i < some.len() ==> offset + i < all.len() && #[trigger] some[i]
                == all[offset + i],
    ensures
        is_id_of(all, m, row_id),
{
    let i = choose|i: int| 0 <= i < n && i < some.len() && (#[trigger] some[i]).row_id == row_id;
    assert(all[offset + i].row_id == row_id);
}

proof fn lemma_sweep(
    rules: SweepRules,
    store_insert_ids: bool,
    at: Sweep,
    rows: Seq<RowMeta>,
    batch: Seq<RowMeta>,
    batch_is_protected: bool,
    num_batches: int,
) -> (n: int)
    requires
        tables_valid(at.tables, store_insert_ids),
        rows_temporal(rows),
        rows_temporal(batch),
        forall|i: int|
            0 <= i < batch.len() ==> !rules.protected.contains((#[trigger] batch[i]).row_id.bits),
        num_batches >= 0,
    ensures
        ({
            let end = sweep_rows(rules, at, rows, batch, batch_is_protected, num_batches);
            &&& tables_shrink(at.tables, end.tables)
            &&& at.diffs.len() <= end.diffs.len()
            &&& forall|d: int|
                0 <= d < at.diffs.len() ==> #[trigger] end.diffs[d] == at.diffs[d]
            &&& sweep_ends_well(rules, at, end, batch + rows, n)
        }),
    decreases rows.len(),
{
    let end = sweep_rows(rules, at, rows, batch, batch_is_protected, num_batches);
    let all = batch + rows;
    if rows.len() == 0 {
        lemma_sweep_batch(rules, store_insert_ids, at, batch, batch_is_protected);
        let n = num_swept(rules, at, batch, batch_is_protected);
        assert(all =~= batch);
        if !rules.enable_batching {
            assert forall|d: int| at.diffs.len() <= d < end.diffs.len() implies is_unprotected_id_of(
                all,
                n,
                (#[trigger] end.diffs[d]).row_id,
                rules.protected,
            ) by {
                assert(is_id_of(batch, n, end.diffs[d].row_id));
            }
        }
        n
    } else {
        let row = rows[0];
        let rest = rows.skip(1);
        assert(times_temporal(row.times));
        assert(rows_temporal(rest)) by {
            assert forall|i: int| 0 <= i < rest.len() implies times_temporal(
                (#[trigger] rest[i]).times,
            ) by {
                assert(times_temporal(rows[i + 1].times));
            }
        }
        let full = batch.push(row);
        assert(full + rest =~= all);
        if rules.protected.contains(row.row_id.bits) {
            let m = lemma_sweep(rules, store_insert_ids, at, rest, batch, true, num_batches);
            let less_rows = batch + rest;
            let n = if m <= batch.len() && m < less_rows.len() {
                m
            } else {
                m + 1
            };
            assert forall|i: int|
                0 <= i < n && !rules.protected.contains((#[trigger] all[i]).row_id.bits) implies gone(
                end.tables,
                all[i],
            ) by {
                if i < batch.len() {
                    assert(less_rows[i] == all[i]);
                } else if i > batch.len() {
                    assert(less_rows[i - 1] == all[i]);
                }
            }
            if !rules.enable_batching {
                assert forall|d: int|
                    at.diffs.len() <= d < end.diffs.len() implies is_unprotected_id_of(
                    all,
                    n,
                    (#[trigger] end.diffs[d]).row_id,
                    rules.protected,
                ) by {
                    let id = end.diffs[d].row_id;
                    assert(is_unprotected_id_of(less_rows, m, id, rules.protected));
                    let i = choose|i: int|
                        0 <= i < m && i < less_rows.len() && (#[trigger] less_rows[i]).row_id == id;
                    if i < batch.len() {
                        assert(all[i].row_id == id);
                    } else {
                        assert(all[i + 1].row_id == id);
                    }
                }
            }
            n
        } else {
            assert forall|i: int| 0 <= i < full.len() implies !rules.protected.contains(
                (#[trigger] full[i]).row_id.bits,
            ) by {
                if i < batch.len() {
                    assert(!rules.protected.contains(batch[i].row_id.bits));
                }
            }
            assert(rows_temporal(full)) by {
                assert forall|i: int| 0 <= i < full.len() implies times_temporal(
                    (#[trigger] full[i]).times,
                ) by {
                    if i < batch.len() {
                        assert(times_temporal(batch[i].times));
                    }
                }
            }
            if full.len() < rules.batch_size {
                lemma_sweep(
                    rules,
                    store_insert_ids,
                    at,
                    rest,
                    full,
                    batch_is_protected,
                    num_batches,
                )
            } else {
                let then = sweep_batch(rules, at, full, batch_is_protected);
                lemma_sweep_batch(rules, store_insert_ids, at, full, batch_is_protected);
                let n1 = num_swept(rules, at, full, batch_is_protected);
                if (rules.time_is_up)(num_batches) || spent(then.budget) {
                    lemma_sweep_batch(rules, store_insert_ids, then, full, batch_is_protected);
                    let n2 = num_swept(rules, then, full, batch_is_protected);
                    let n = if n1 >= n2 {
                        n1
                    } else {
                        n2
                    };
                    lemma_shrink_trans(at.tables, then.tables, end.tables);
                    assert forall|i: int|
                        0 <= i < n && !rules.protected.contains(
                            (#[trigger] all[i]).row_id.bits,
                        ) implies gone(end.tables, all[i]) by {
                        assert(full[i] == all[i]);
                        if i < n1 {
                            lemma_still_gone(then.tables, end.tables, full[i]);
                        }
                    }
                    if !rules.enable_batching {
                        assert forall|d: int|
                            at.diffs.len() <= d < end.diffs.len() implies is_unprotected_id_of(
                            all,
                            n,
                            (#[trigger] end.diffs[d]).row_id,
                            rules.protected,
                        ) by {
                            let id = end.diffs[d].row_id;
                            if d < then.diffs.len() {
                                assert(then.diffs[d] == end.diffs[d]);
                                assert(is_id_of(full, n1, id));
                                lemma_id_of_more(full, n1, all, n, 0, id);
                                lemma_id_unprotected(full, n1, id, rules.protected);
                            } else {
                                assert(is_id_of(full, n2, id));
                                lemma_id_of_more(full, n2, all, n, 0, id);
                                lemma_id_unprotected(full, n2, id, rules.protected);
                            }
                        }
                    }
                    n
                } else {
                    let n2 = lemma_sweep(
                        rules,
                        store_insert_ids,
                        then,
                        rest,
                        Seq::empty(),
                        false,
                        num_batches + 1,
                    );
                    let waiting = Seq::<RowMeta>::empty() + rest;
                    assert(waiting =~= rest);
                    let n = full.len() + n2;
                    lemma_shrink_trans(at.tables, then.tables, end.tables);
                    assert forall|i: int|
                        0 <= i < n && !rules.protected.contains(
                            (#[trigger] all[i]).row_id.bits,
                        ) implies gone(end.tables, all[i]) by {
                        if i < full.len() {
                            assert(full[i] == all[i]);
                            lemma_still_gone(then.tables, end.tables, full[i]);
                        } else {
                            assert(waiting[i - full.len()] == all[i]);
                        }
                    }
                    if !rules.enable_batching {
                        assert forall|d: int|
                            at.diffs.len() <= d < end.diffs.len() implies is_unprotected_id_of(
                            all,
                            n,
                            (#[trigger] end.diffs[d]).row_id,
                            rules.protected,
                        ) by {
                            let id = end.diffs[d].row_id;
                            if d < then.diffs.len() {
                                assert(then.diffs[d] == end.diffs[d]);
                                assert(is_id_of(full, n1, id));
                                lemma_id_of_more(full, n1, all, n, 0, id);
                                lemma_id_unprotected(full, n1, id, rules.protected);
                            } else {
                                assert(is_unprotected_id_of(waiting, n2, id, rules.protected));
                                lemma_id_of_more(waiting, n2, all, n, full.len() as int, id);
                            }
                        }
                    }
                    n
                }
            }
        }
    }
}

proof fn lemma_id_unprotected(rows: Seq<RowMeta>, n: int, row_id: RowId, protected: Set<u128>)
    requires
        is_id_of(rows, n, row_id),
        forall|i: int|
            0 <= i < rows.len() ==> !protected.contains((#[trigger] rows[i]).row_id.bits),
    ensures
        !protected.contains(row_id.bits),
{
    let i = choose|i: int| 0 <= i < n && i < rows.len() && (#[trigger] rows[i]).row_id == row_id;
    assert(!protected.contains(rows[i].row_id.bits));
}

// --- What that comes to.

/// What a sweep that follows some options ends with.
pub open spec fn sweep_of(
    store: StoreView,
    bucket_num_rows: u64,
    options: GarbageCollectionOptions,
    time_is_up: spec_fn(int) -> bool,
) -> Sweep {
    swept(
        store,
        bucket_num_rows,
        options.enable_batching,
        budget_of(options.target),
        protected_by(store, options),
        time_is_up,
    )
}

/// The rows that some options protect.
pub open spec fn protected_by(store: StoreView, options: GarbageCollectionOptions) -> Set<u128> {
    protected_rows(store.tables, options.protect_latest as nat, options.dont_protect@)
}

pub proof fn lemma_sweep_of(
    store: StoreView,
    store_insert_ids: bool,
    bucket_num_rows: u64,
    options: GarbageCollectionOptions,
    time_is_up: spec_fn(int) -> bool,
) -> (n: int)
    requires
        tables_valid(store.tables, store_insert_ids),
        registry_valid(store.registry),
    ensures
        ({
            let end = sweep_of(store, bucket_num_rows, options, time_is_up);
            let protected = protected_by(store, options);
            &&& tables_shrink(store.tables, end.tables)
            &&& swept_up_to(end.tables, protected, store.registry, n)
            &&& n == store.registry.len() || spent(end.budget) || time_ran_out(time_is_up)
            &&& !options.enable_batching ==> forall|d: int|
                0 <= d < end.diffs.len() ==> is_unprotected_id_of(
                    store.registry,
                    n,
                    (#[trigger] end.diffs[d]).row_id,
                    protected,
                )
        }),
{
    let rules = SweepRules {
        enable_batching: options.enable_batching,
        batch_size: batch_size_of(bucket_num_rows),
        protected: protected_by(store, options),
        time_is_up,
    };
    let start = Sweep {
        tables: store.tables,
        heap_size: store.heap_size,
        budget: budget_of(options.target),
        diffs: Seq::empty(),
    };
    assert(rows_temporal(store.registry)) by {
        assert forall|i: int| 0 <= i < store.registry.len() implies times_temporal(
            (#[trigger] store.registry[i]).times,
        ) by {}
    }
    let n = lemma_sweep(
        rules,
        store_insert_ids,
        start,
        store.registry,
        Seq::empty(),
        false,
        0,
    );
    assert(Seq::<RowMeta>::empty() + store.registry =~= store.registry);
    n
}

/// Law: a collection adds no row to any table.
pub proof fn law_collections_add_nothing(
    store: StoreView,
    store_insert_ids: bool,
    bucket_num_rows: u64,
    options: GarbageCollectionOptions,
    time_is_up: spec_fn(int) -> bool,
)
    requires
        tables_valid(store.tables, store_insert_ids),
        registry_valid(store.registry),
    ensures
        tables_shrink(
            store.tables,
            sweep_of(store, bucket_num_rows, options, time_is_up).tables,
        ),
{
    lemma_sweep_of(store, store_insert_ids, bucket_num_rows, options, time_is_up);
}

/// Law: a collection of everything for which there is enough time leaves no registered row at any of
/// the times that it was logged with, unless the row is protected.
pub proof fn law_everything_unprotected_goes(
    store: StoreView,
    store_insert_ids: bool,
    bucket_num_rows: u64,
    options: GarbageCollectionOptions,
    time_is_up: spec_fn(int) -> bool,
    i: int,
)
    requires
        tables_valid(store.tables, store_insert_ids),
        registry_valid(store.registry),
        options.target is Everything,
        !time_ran_out(time_is_up),
        0 <= i < store.registry.len(),
        !protected_by(store, options).contains(store.registry[i].row_id.bits),
    ensures
        gone(sweep_of(store, bucket_num_rows, options, time_is_up).tables, store.registry[i]),
{
    lemma_sweep_of(store, store_insert_ids, bucket_num_rows, options, time_is_up);
    lemma_budget_without_end(
        SweepRules {
            enable_batching: options.enable_batching,
            batch_size: batch_size_of(bucket_num_rows),
            protected: protected_by(store, options),
            time_is_up,
        },
        Sweep {
            tables: store.tables,
            heap_size: store.heap_size,
            budget: budget_of(options.target),
            diffs: Seq::empty(),
        },
        store.registry,
        Seq::empty(),
        false,
        0,
    );
}

proof fn lemma_batch_without_end(
    rules: SweepRules,
    at: Sweep,
    batch: Seq<RowMeta>,
    batch_is_protected: bool,
)
    requires
        at.budget is None,
    ensures
        sweep_batch(rules, at, batch, batch_is_protected).budget is None,
{
    assert forall|tables: Seq<TableSlot>, rows: Seq<RowMeta>| (#[trigger] drop_rows(
        tables,
        None,
        rows,
    )).budget is None by {
        lemma_rows_without_end(tables, rows);
    }
}

proof fn lemma_rows_without_end(tables: Seq<TableSlot>, rows: Seq<RowMeta>)
    ensures
        drop_rows(tables, None, rows).budget is None,
    decreases rows.len(),
{
    if rows.len() > 0 {
        lemma_rows_without_end(tables, rows.drop_last());
    }
}

proof fn lemma_budget_without_end(
    rules: SweepRules,
    at: Sweep,
    rows: Seq<RowMeta>,
    batch: Seq<RowMeta>,
    batch_is_protected: bool,
    num_batches: int,
)
    requires
        at.budget is None,
    ensures
        sweep_rows(rules, at, rows, batch, batch_is_protected, num_batches).budget is None,
    decreases rows.len(),
{
    if rows.len() == 0 {
        lemma_batch_without_end(rules, at, batch, batch_is_protected);
    } else {
        let full = batch.push(rows[0]);
        let rest = rows.skip(1);
        let then = sweep_batch(rules, at, full, batch_is_protected);
        lemma_batch_without_end(rules, at, full, batch_is_protected);
        lemma_batch_without_end(rules, then, full, batch_is_protected);
        lemma_budget_without_end(rules, at, rest, batch, true, num_batches);
        lemma_budget_without_end(rules, at, rest, full, batch_is_protected, num_batches);
        lemma_budget_without_end(rules, then, rest, Seq::empty(), false, num_batches + 1);
    }
}

/// Law: row by row, a collection drops the oldest rows first. Once a row is reported, every row with
/// a smaller id is gone, unless that row is protected.
pub proof fn law_oldest_rows_go_first(
    store: StoreView,
    store_insert_ids: bool,
    bucket_num_rows: u64,
    options: GarbageCollectionOptions,
    time_is_up: spec_fn(int) -> bool,
    d: int,
    i: int,
)
    requires
        tables_valid(store.tables, store_insert_ids),
        registry_valid(store.registry),
        !options.enable_batching,
        0 <= d < sweep_of(store, bucket_num_rows, options, time_is_up).diffs.len(),
        0 <= i < store.registry.len(),
        store.registry[i].row_id.bits < sweep_of(
            store,
            bucket_num_rows,
            options,
            time_is_up,
        ).diffs[d].row_id.bits,
        !protected_by(store, options).contains(store.registry[i].row_id.bits),
    ensures
        gone(sweep_of(store, bucket_num_rows, options, time_is_up).tables, store.registry[i]),
{
    let n = lemma_sweep_of(store, store_insert_ids, bucket_num_rows, options, time_is_up);
    let end = sweep_of(store, bucket_num_rows, options, time_is_up);
    let id = end.diffs[d].row_id;
    assert(is_unprotected_id_of(store.registry, n, id, protected_by(store, options)));
    let k = choose|k: int|
        0 <= k < n && k < store.registry.len() && (#[trigger] store.registry[k]).row_id == id;
    if k <= i {
        if k < i {
            assert(store.registry[k].row_id.bits < store.registry[i].row_id.bits);
        }
    }
}

/// Law: row by row, a collection reports registered rows alone, and none that is protected.
pub proof fn law_only_unprotected_rows_are_reported(
    store: StoreView,
    store_insert_ids: bool,
    bucket_num_rows: u64,
    options: GarbageCollectionOptions,
    time_is_up: spec_fn(int) -> bool,
    d: int,
)
    requires
        tables_valid(store.tables, store_insert_ids),
        registry_valid(store.registry),
        !options.enable_batching,
        0 <= d < sweep_of(store, bucket_num_rows, options, time_is_up).diffs.len(),
    ensures
        ({
            let id = sweep_of(store, bucket_num_rows, options, time_is_up).diffs[d].row_id;
            &&& crate::store::is_registered(store.registry, id)
            &&& !protected_by(store, options).contains(id.bits)
        }),
{
    let n = lemma_sweep_of(store, store_insert_ids, bucket_num_rows, options, time_is_up);
    let end = sweep_of(store, bucket_num_rows, options, time_is_up);
    let id = end.diffs[d].row_id;
    assert(is_unprotected_id_of(store.registry, n, id, protected_by(store, options)));
    let k = choose|k: int|
        0 <= k < n && k < store.registry.len() && (#[trigger] store.registry[k]).row_id == id;
    assert(store.registry[k].row_id == id);
}

// --- How many bytes are freed.

proof fn lemma_tables_size_update(tables: Seq<TableSlot>, i: int, slot: TableSlot)
    requires
        0 <= i < tables.len(),
    ensures
        tables_size(tables.update(i, slot)) == tables_size(tables) - tables[i].table.size()
            + slot.table.size(),
    decreases tables.len(),
{
    let after = tables.update(i, slot);
    if i == tables.len() - 1 {
        assert(after.drop_last() =~= tables.drop_last());
    } else {
        assert(after.drop_last() =~= tables.drop_last().update(i, slot));
        lemma_tables_size_update(tables.drop_last(), i, slot);
    }
}

pub proof fn lemma_diffs_meta_size_concat(a: Seq<DiffView>, b: Seq<DiffView>)
    ensures
        diffs_meta_size(a + b) == diffs_meta_size(a) + diffs_meta_size(b),
    decreases b.len(),
{
    if b.len() == 0 {
        assert(a + b =~= a);
    } else {
        assert((a + b).drop_last() =~= a + b.drop_last());
        lemma_diffs_meta_size_concat(a, b.drop_last());
    }
}

proof fn lemma_drop_row_at_times_size(
    tables: Seq<TableSlot>,
    store_insert_ids: bool,
    row: RowMeta,
    times: Seq<(Timeline, TimeInt)>,
)
    requires
        tables_valid(tables, store_insert_ids),
        times_temporal(times),
    ensures
        ({
            let dropped = drop_row_at_times(tables, row.hash, row.row_id, times);
            &&& dropped.num_bytes == tables_size(tables) - tables_size(dropped.tables)
            &&& dropped.num_bytes >= 0
        }),
    decreases times.len(),
{
    if times.len() > 0 {
        let init = times.drop_last();
        assert(times_temporal(init)) by {
            assert forall|i: int| 0 <= i < init.len() implies (#[trigger] init[i]).1.value
                >= TIME_MIN by {
                assert(times[i].1.value >= TIME_MIN);
            }
        }
        assert(times[times.len() - 1].1.value >= TIME_MIN);
        lemma_drop_row_at_times_size(tables, store_insert_ids, row, init);
        crate::gc::lemma_drop_row_at_times_valid(
            tables,
            store_insert_ids,
            row.hash,
            row.row_id,
            init,
        );
        let st = drop_row_at_times(tables, row.hash, row.row_id, init);
        let (timeline, time) = times.last();
        if let Some(i) = slot_index(st.tables, row.hash, timeline@) {
            assert(0 <= i < st.tables.len() && is_table_of(st.tables[i], row.hash, timeline@));
            crate::gc::lemma_table_of_valid(st.tables, store_insert_ids, i);
            crate::table::lemma_drop_row_valid(st.tables[i].table, row.row_id, time);
            lemma_tables_size_update(
                st.tables,
                i,
                TableSlot {
                    hash: row.hash,
                    table: drop_row_spec(st.tables[i].table, row.row_id, time).table,
                },
            );
        }
    }
}

pub proof fn lemma_drop_rows_size(
    tables: Seq<TableSlot>,
    store_insert_ids: bool,
    budget: Option<u128>,
    rows: Seq<RowMeta>,
)
    requires
        tables_valid(tables, store_insert_ids),
        rows_temporal(rows),
    ensures
        ({
            let end = drop_rows(tables, budget, rows);
            let freed = tables_size(tables) - tables_size(end.tables);
            &&& freed >= 0
            &&& end.budget == less(budget, freed)
        }),
    decreases rows.len(),
{
    if rows.len() > 0 {
        let init = rows.drop_last();
        assert(rows_temporal(init)) by {
            assert forall|i: int| 0 <= i < init.len() implies times_temporal(
                (#[trigger] init[i]).times,
            ) by {
                assert(times_temporal(rows[i].times));
            }
        }
        lemma_drop_rows_size(tables, store_insert_ids, budget, init);
        crate::gc::lemma_drop_rows_valid(tables, store_insert_ids, budget, init);
        let st = drop_rows(tables, budget, init);
        let row = rows[rows.len() - 1];
        assert(times_temporal(row.times));
        lemma_drop_row_at_times_size(st.tables, store_insert_ids, row, row.times);
        let dropped = drop_row_at_times(st.tables, row.hash, row.row_id, row.times);
        crate::gc::lemma_less_twice(
            budget,
            tables_size(tables) - tables_size(st.tables),
            dropped.num_bytes,
        );
    }
}

pub proof fn lemma_sweep_batch_size(
    rules: SweepRules,
    store_insert_ids: bool,
    at: Sweep,
    batch: Seq<RowMeta>,
    batch_is_protected: bool,
)
    requires
        tables_valid(at.tables, store_insert_ids),
        rows_temporal(batch),
        !rules.enable_batching,
    ensures
        ({
            let end = sweep_batch(rules, at, batch, batch_is_protected);
            let freed = tables_size(at.tables) - tables_size(end.tables) + diffs_meta_size(
                end.diffs,
            ) - diffs_meta_size(at.diffs);
            &&& freed >= 0
            &&& end.budget == less(at.budget, freed)
        }),
{
    let dropped = drop_batch_spec(
        rules.enable_batching,
        at.tables,
        at.budget,
        batch,
        batch_is_protected,
        rules.protected,
    );
    lemma_drop_rows_size(at.tables, store_insert_ids, at.budget, batch);
    lemma_diffs_meta_size_concat(at.diffs, dropped.diffs);
    crate::gc::lemma_diffs_meta_size_nonneg(dropped.diffs);
    crate::gc::lemma_less_twice(
        at.budget,
        tables_size(at.tables) - tables_size(dropped.tables),
        diffs_meta_size(dropped.diffs),
    );
}

proof fn lemma_sweep_size(
    rules: SweepRules,
    store_insert_ids: bool,
    at: Sweep,
    rows: Seq<RowMeta>,
    batch: Seq<RowMeta>,
    batch_is_protected: bool,
    num_batches: int,
)
    requires
        tables_valid(at.tables, store_insert_ids),
        rows_temporal(rows),
        rows_temporal(batch),
        !rules.enable_batching,
    ensures
        ({
            let end = sweep_rows(rules, at, rows, batch, batch_is_protected, num_batches);
            let freed = tables_size(at.tables) - tables_size(end.tables) + diffs_meta_size(
                end.diffs,
            ) - diffs_meta_size(at.diffs);
            &&& freed >= 0
            &&& end.budget == less(at.budget, freed)
        }),
    decreases rows.len(),
{
    if rows.len() == 0 {
        lemma_sweep_batch_size(rules, store_insert_ids, at, batch, batch_is_protected);
    } else {
        let row = rows[0];
        let rest = rows.skip(1);
        assert(times_temporal(row.times));
        assert(rows_temporal(rest)) by {
            assert forall|i: int| 0 <= i < rest.len() implies times_temporal(
                (#[trigger] rest[i]).times,
            ) by {
                assert(times_temporal(rows[i + 1].times));
            }
        }
        let full = batch.push(row);
        assert(rows_temporal(full)) by {
            assert forall|i: int| 0 <= i < full.len() implies times_temporal(
                (#[trigger] full[i]).times,
            ) by {
                if i < batch.len() {
                    assert(times_temporal(batch[i].times));
                }
            }
        }
        if rules.protected.contains(row.row_id.bits) {
            lemma_sweep_size(rules, store_insert_ids, at, rest, batch, true, num_batches);
        } else if full.len() < rules.batch_size {
            lemma_sweep_size(
                rules,
                store_insert_ids,
                at,
                rest,
                full,
                batch_is_protected,
                num_batches,
            );
        } else {
            let then = sweep_batch(rules, at, full, batch_is_protected);
            lemma_sweep_batch_size(rules, store_insert_ids, at, full, batch_is_protected);
            crate::gc::lemma_sweep_batch_valid(
                rules,
                store_insert_ids,
                at,
                full,
                batch_is_protected,
            );
            let first = tables_size(at.tables) - tables_size(then.tables) + diffs_meta_size(
                then.diffs,
            ) - diffs_meta_size(at.diffs);
            let end = sweep_rows(rules, at, rows, batch, batch_is_protected, num_batches);
            let second = tables_size(then.tables) - tables_size(end.tables) + diffs_meta_size(
                end.diffs,
            ) - diffs_meta_size(then.diffs);
            if (rules.time_is_up)(num_batches) || spent(then.budget) {
                lemma_sweep_batch_size(rules, store_insert_ids, then, full, batch_is_protected);
            } else {
                lemma_sweep_size(
                    rules,
                    store_insert_ids,
                    then,
                    rest,
                    Seq::empty(),
                    false,
                    num_batches + 1,
                );
            }
            crate::gc::lemma_less_twice(at.budget, first, second);
        }
    }
}

/// Law: row by row, a collection frees at least as many bytes in tables and the registry as it was
/// asked to, unless time was up or nothing is left to drop that is not protected.
pub proof fn law_target_is_met(
    store: StoreView,
    store_insert_ids: bool,
    bucket_num_rows: u64,
    options: GarbageCollectionOptions,
    time_is_up: spec_fn(int) -> bool,
    num_bytes: u128,
)
    requires
        tables_valid(store.tables, store_insert_ids),
        registry_valid(store.registry),
        !options.enable_batching,
        options.target == GarbageCollectionTarget::DropAtLeastBytes(num_bytes),
        !time_ran_out(time_is_up),
    ensures
        ({
            let end = sweep_of(store, bucket_num_rows, options, time_is_up);
            ||| tables_size(store.tables) - tables_size(end.tables) + diffs_meta_size(end.diffs)
                >= num_bytes
            ||| forall|i: int|
                0 <= i < store.registry.len() && !protected_by(store, options).contains(
                    (#[trigger] store.registry[i]).row_id.bits,
                ) ==> gone(end.tables, store.registry[i])
        }),
{
    let n = lemma_sweep_of(store, store_insert_ids, bucket_num_rows, options, time_is_up);
    assert(rows_temporal(store.registry)) by {
        assert forall|i: int| 0 <= i < store.registry.len() implies times_temporal(
            (#[trigger] store.registry[i]).times,
        ) by {}
    }
    lemma_sweep_size(
        SweepRules {
            enable_batching: options.enable_batching,
            batch_size: batch_size_of(bucket_num_rows),
            protected: protected_by(store, options),
            time_is_up,
        },
        store_insert_ids,
        Sweep {
            tables: store.tables,
            heap_size: store.heap_size,
            budget: budget_of(options.target),
            diffs: Seq::empty(),
        },
        store.registry,
        Seq::empty(),
        false,
        0,
    );
}

/// What a table takes up, in bytes, apart from the empty bucket that is always left.
pub open spec fn used_size(table: TableView) -> int {
    if table.buckets.len() == 1 && table.buckets[0].bucket.rows.len() == 0 {
        0
    } else {
        table.size()
    }
}

/// What tables take up, in bytes, apart from the empty buckets that are always left.
pub open spec fn tables_used_size(tables: Seq<TableSlot>) -> int
    decreases tables.len(),
{
    if tables.len() == 0 {
        0
    } else {
        tables_used_size(tables.drop_last()) + used_size(tables.last().table)
    }
}

proof fn lemma_used_size_update(tables: Seq<TableSlot>, i: int, slot: TableSlot)
    requires
        0 <= i < tables.len(),
    ensures
        tables_used_size(tables.update(i, slot)) == tables_used_size(tables) - used_size(
            tables[i].table,
        ) + used_size(slot.table),
    decreases tables.len(),
{
    let after = tables.update(i, slot);
    if i == tables.len() - 1 {
        assert(after.drop_last() =~= tables.drop_last());
    } else {
        assert(after.drop_last() =~= tables.drop_last().update(i, slot));
        lemma_used_size_update(tables.drop_last(), i, slot);
    }
}

proof fn lemma_drop_row_used_size(table: TableView, row_id: RowId, time: TimeInt)
    requires
        table.valid(),
        time.value >= TIME_MIN,
    ensures
        0 <= drop_row_spec(table, row_id, time).num_bytes <= used_size(table) - used_size(
            drop_row_spec(table, row_id, time).table,
        ),
{
    crate::table::lemma_drop_row_valid(table, row_id, time);
    crate::table::lemma_table_bucket_of(table, time.value);
    let after = drop_row_spec(table, row_id, time).table;
    crate::table::lemma_buckets_nonneg(after.buckets);
    let b = bucket_of(table.buckets, time.value);
    if let Some(i) = row_index(table.buckets[b].bucket.rows, row_id, time.value) {
        assert(0 <= i < table.buckets[b].bucket.rows.len());
    }
}

proof fn lemma_drop_row_at_times_used_size(
    tables: Seq<TableSlot>,
    store_insert_ids: bool,
    row: RowMeta,
    times: Seq<(Timeline, TimeInt)>,
)
    requires
        tables_valid(tables, store_insert_ids),
        times_temporal(times),
    ensures
        ({
            let dropped = drop_row_at_times(tables, row.hash, row.row_id, times);
            0 <= dropped.num_bytes <= tables_used_size(tables) - tables_used_size(dropped.tables)
        }),
    decreases times.len(),
{
    if times.len() > 0 {
        let init = times.drop_last();
        assert(times_temporal(init)) by {
            assert forall|i: int| 0 <= i < init.len() implies (#[trigger] init[i]).1.value
                >= TIME_MIN by {
                assert(times[i].1.value >= TIME_MIN);
            }
        }
        assert(times[times.len() - 1].1.value >= TIME_MIN);
        lemma_drop_row_at_times_used_size(tables, store_insert_ids, row, init);
        crate::gc::lemma_drop_row_at_times_valid(
            tables,
            store_insert_ids,
            row.hash,
            row.row_id,
            init,
        );
        let st = drop_row_at_times(tables, row.hash, row.row_id, init);
        let (timeline, time) = times.last();
        if let Some(i) = slot_index(st.tables, row.hash, timeline@) {
            assert(0 <= i < st.tables.len() && is_table_of(st.tables[i], row.hash, timeline@));
            crate::gc::lemma_table_of_valid(st.tables, store_insert_ids, i);
            lemma_drop_row_used_size(st.tables[i].table, row.row_id, time);
            lemma_used_size_update(
                st.tables,
                i,
                TableSlot {
                    hash: row.hash,
                    table: drop_row_spec(st.tables[i].table, row.row_id, time).table,
                },
            );
        }
    }
}

/// Dropping rows one by one counts no more bytes than are freed.
proof fn lemma_drop_rows_used_size(
    tables: Seq<TableSlot>,
    store_insert_ids: bool,
    budget: Option<u128>,
    rows: Seq<RowMeta>,
) -> (counted: int)
    requires
        tables_valid(tables, store_insert_ids),
        rows_temporal(rows),
    ensures
        ({
            let end = drop_rows(tables, budget, rows);
            &&& 0 <= counted <= tables_used_size(tables) - tables_used_size(end.tables)
            &&& end.budget == less(budget, counted)
        }),
    decreases rows.len(),
{
    if rows.len() == 0 {
        0
    } else {
        let init = rows.drop_last();
        assert(rows_temporal(init)) by {
            assert forall|i: int| 0 <= i < init.len() implies times_temporal(
                (#[trigger] init[i]).times,
            ) by {
                assert(times_temporal(rows[i].times));
            }
        }
        let before = lemma_drop_rows_used_size(tables, store_insert_ids, budget, init);
        crate::gc::lemma_drop_rows_valid(tables, store_insert_ids, budget, init);
        let st = drop_rows(tables, budget, init);
        let row = rows[rows.len() - 1];
        assert(times_temporal(row.times));
        lemma_drop_row_at_times_used_size(st.tables, store_insert_ids, row, row.times);
        let dropped = drop_row_at_times(st.tables, row.hash, row.row_id, row.times);
        crate::gc::lemma_less_twice(budget, before, dropped.num_bytes);
        if rows.len() > 1 && spent(st.budget) {
            before
        } else {
            before + dropped.num_bytes
        }
    }
}

proof fn lemma_drop_buckets_of_table_used_size(table: TableView, max: RowId, protected: Set<u128>)
    requires
        table.valid(),
    ensures
        drop_buckets_spec(table, max, protected).num_bytes == used_size(table) - used_size(
            drop_buckets_spec(table, max, protected).table,
        ),
        drop_buckets_spec(table, max, protected).num_bytes >= 0,
{
    reveal(TableView::valid);
    crate::table::lemma_drop_buckets_valid(table, max, protected);
    crate::table::lemma_kept(table.buckets, max, protected);
    let kept = kept_buckets(table.buckets, max, protected);
    if table.buckets.len() == 1 && table.buckets[0].bucket.rows.len() == 0 {
        assert(table.buckets.drop_last() =~= Seq::empty());
        reveal_with_fuel(kept_buckets, 2);
        reveal_with_fuel(droppable_buckets, 2);
    } else if kept.len() > 0 {
        assert(kept[0] == table.buckets[kept_indices(table.buckets, max, protected)[0]]);
        assert(kept[0].bucket.rows.len() > 0);
    }
}

/// Dropping whole buckets counts the bytes that are freed.
proof fn lemma_drop_buckets_used_size(
    tables: Seq<TableSlot>,
    store_insert_ids: bool,
    max: RowId,
    protected: Set<u128>,
)
    requires
        tables_valid(tables, store_insert_ids),
    ensures
        drop_buckets(tables, max, protected).num_bytes == tables_used_size(tables) - tables_used_size(
            drop_buckets(tables, max, protected).tables,
        ),
        drop_buckets(tables, max, protected).num_bytes >= 0,
    decreases tables.len(),
{
    if tables.len() > 0 {
        let init = tables.drop_last();
        assert(init =~= tables.take(tables.len() - 1));
        crate::gc::lemma_tables_prefix_valid(tables, store_insert_ids, tables.len() - 1);
        lemma_drop_buckets_used_size(init, store_insert_ids, max, protected);
        crate::gc::lemma_table_of_valid(tables, store_insert_ids, tables.len() - 1);
        lemma_drop_buckets_of_table_used_size(tables.last().table, max, protected);
        let out = drop_buckets(tables, max, protected).tables;
        assert(out.drop_last() =~= drop_buckets(init, max, protected).tables);
    }
}

proof fn lemma_sweep_batch_used_size(
    rules: SweepRules,
    store_insert_ids: bool,
    at: Sweep,
    batch: Seq<RowMeta>,
    batch_is_protected: bool,
) -> (counted: int)
    requires
        tables_valid(at.tables, store_insert_ids),
        rows_temporal(batch),
    ensures
        ({
            let end = sweep_batch(rules, at, batch, batch_is_protected);
            &&& 0 <= counted <= tables_used_size(at.tables) - tables_used_size(end.tables)
                + diffs_meta_size(end.diffs) - diffs_meta_size(at.diffs)
            &&& end.budget == less(at.budget, counted)
        }),
{
    let dropped = drop_batch_spec(
        rules.enable_batching,
        at.tables,
        at.budget,
        batch,
        batch_is_protected,
        rules.protected,
    );
    let whole = rules.enable_batching && batch.len() > 0 && !batch_is_protected;
    let (tables, first) = if whole {
        lemma_drop_buckets_used_size(at.tables, store_insert_ids, batch.last().row_id, rules.protected);
        crate::gc::lemma_drop_buckets_tables(at.tables, store_insert_ids, batch.last().row_id, rules.protected);
        let buckets = drop_buckets(at.tables, batch.last().row_id, rules.protected);
        (buckets.tables, buckets.num_bytes)
    } else {
        (at.tables, 0)
    };
    let budget = less(at.budget, first);
    let second = if spent(budget) {
        0
    } else {
        lemma_drop_rows_used_size(tables, store_insert_ids, budget, batch)
    };
    crate::gc::lemma_less_twice(at.budget, first, second);
    assert(dropped.budget == less(at.budget, first + second));
    lemma_diffs_meta_size_concat(at.diffs, dropped.diffs);
    crate::gc::lemma_diffs_meta_size_nonneg(dropped.diffs);
    crate::gc::lemma_less_twice(at.budget, first + second, diffs_meta_size(dropped.diffs));
    first + second + diffs_meta_size(dropped.diffs)
}

proof fn lemma_sweep_used_size(
    rules: SweepRules,
    store_insert_ids: bool,
    at: Sweep,
    rows: Seq<RowMeta>,
    batch: Seq<RowMeta>,
    batch_is_protected: bool,
    num_batches: int,
) -> (counted: int)
    requires
        tables_valid(at.tables, store_insert_ids),
        rows_temporal(rows),
        rows_temporal(batch),
    ensures
        ({
            let end = sweep_rows(rules, at, rows, batch, batch_is_protected, num_batches);
            &&& 0 <= counted <= tables_used_size(at.tables) - tables_used_size(end.tables)
                + diffs_meta_size(end.diffs) - diffs_meta_size(at.diffs)
            &&& end.budget == less(at.budget, counted)
        }),
    decreases rows.len(),
{
    if rows.len() == 0 {
        lemma_sweep_batch_used_size(rules, store_insert_ids, at, batch, batch_is_protected)
    } else {
        let row = rows[0];
        let rest = rows.skip(1);
        assert(times_temporal(row.times));
        assert(rows_temporal(rest)) by {
            assert forall|i: int| 0 <= i < rest.len() implies times_temporal(
                (#[trigger] rest[i]).times,
            ) by {
                assert(times_temporal(rows[i + 1].times));
            }
        }
        let full = batch.push(row);
        assert(rows_temporal(full)) by {
            assert forall|i: int| 0 <= i < full.len() implies times_temporal(
                (#[trigger] full[i]).times,
            ) by {
                if i < batch.len() {
                    assert(times_temporal(batch[i].times));
                }
            }
        }
        if rules.protected.contains(row.row_id.bits) {
            lemma_sweep_used_size(rules, store_insert_ids, at, rest, batch, true, num_batches)
        } else if full.len() < rules.batch_size {
            lemma_sweep_used_size(
                rules,
                store_insert_ids,
                at,
                rest,
                full,
                batch_is_protected,
                num_batches,
            )
        } else {
            let then = sweep_batch(rules, at, full, batch_is_protected);
            let first = lemma_sweep_batch_used_size(
                rules,
                store_insert_ids,
                at,
                full,
                batch_is_protected,
            );
            crate::gc::lemma_sweep_batch_valid(
                rules,
                store_insert_ids,
                at,
                full,
                batch_is_protected,
            );
            let second = if (rules.time_is_up)(num_batches) || spent(then.budget) {
                lemma_sweep_batch_used_size(
                    rules,
                    store_insert_ids,
                    then,
                    full,
                    batch_is_protected,
                )
            } else {
                lemma_sweep_used_size(
                    rules,
                    store_insert_ids,
                    then,
                    rest,
                    Seq::empty(),
                    false,
                    num_batches + 1,
                )
            };
            crate::gc::lemma_less_twice(at.budget, first, second);
            first + second
        }
    }
}

/// Law: a collection frees at least as many bytes in tables and the registry as it was asked to,
/// unless time was up or nothing is left to drop that is not protected. The empty bucket that a
/// table is left with when all its buckets are dropped is not counted as being in use.
pub proof fn law_target_is_met_in_what_is_used(
    store: StoreView,
    store_insert_ids: bool,
    bucket_num_rows: u64,
    options: GarbageCollectionOptions,
    time_is_up: spec_fn(int) -> bool,
    num_bytes: u128,
)
    requires
        tables_valid(store.tables, store_insert_ids),
        registry_valid(store.registry),
        options.target == GarbageCollectionTarget::DropAtLeastBytes(num_bytes),
        !time_ran_out(time_is_up),
    ensures
        ({
            let end = sweep_of(store, bucket_num_rows, options, time_is_up);
            ||| tables_used_size(store.tables) - tables_used_size(end.tables) + diffs_meta_size(
                end.diffs,
            ) >= num_bytes
            ||| forall|i: int|
                0 <= i < store.registry.len() && !protected_by(store, options).contains(
                    (#[trigger] store.registry[i]).row_id.bits,
                ) ==> gone(end.tables, store.registry[i])
        }),
{
    let n = lemma_sweep_of(store, store_insert_ids, bucket_num_rows, options, time_is_up);
    assert(rows_temporal(store.registry)) by {
        assert forall|i: int| 0 <= i < store.registry.len() implies times_temporal(
            (#[trigger] store.registry[i]).times,
        ) by {}
    }
    lemma_sweep_used_size(
        SweepRules {
            enable_batching: options.enable_batching,
            batch_size: batch_size_of(bucket_num_rows),
            protected: protected_by(store, options),
            time_is_up,
        },
        store_insert_ids,
        Sweep {
            tables: store.tables,
            heap_size: store.heap_size,
            budget: budget_of(options.target),
            diffs: Seq::empty(),
        },
        store.registry,
        Seq::empty(),
        false,
        0,
    );
}

// --- What is reported.

/// Whether nothing but deletions is reported.
pub open spec fn all_deletions(diffs: Seq<DiffView>) -> bool {
    forall|d: int| 0 <= d < diffs.len() ==> (#[trigger] diffs[d]).kind is Deletion
}

proof fn lemma_bucket_diffs_are_deletions(
    buckets: Seq<TableBucket>,
    timeline: Timeline,
    entity_path: re_log_types::EntityPath,
)
    ensures
        all_deletions(bucket_diffs(buckets, timeline, entity_path)),
    decreases buckets.len(),
{
    if buckets.len() > 0 {
        lemma_bucket_diffs_are_deletions(buckets.drop_last(), timeline, entity_path);
    }
}

proof fn lemma_merge_diffs_are_deletions(diffs: Seq<DiffView>, removed: Seq<DiffView>)
    requires
        all_deletions(diffs),
        all_deletions(removed),
    ensures
        all_deletions(merge_diffs(diffs, removed)),
    decreases removed.len(),
{
    if removed.len() > 0 {
        let init = removed.drop_last();
        assert(all_deletions(init)) by {
            assert forall|d: int| 0 <= d < init.len() implies (#[trigger] init[d]).kind is Deletion by {
                assert(removed[d].kind is Deletion);
            }
        }
        lemma_merge_diffs_are_deletions(diffs, init);
        let rest = merge_diffs(diffs, init);
        lemma_diff_index(rest, removed.last().row_id);
        assert(removed[removed.len() - 1].kind is Deletion);
    }
}

pub proof fn lemma_diff_index(diffs: Seq<DiffView>, row_id: RowId)
    ensures
        crate::gc::diff_index(diffs, row_id) matches Some(i) ==> 0 <= i < diffs.len(),
    decreases diffs.len(),
{
    if diffs.len() > 0 {
        lemma_diff_index(diffs.drop_last(), row_id);
    }
}

proof fn lemma_drop_buckets_deletes(tables: Seq<TableSlot>, max: RowId, protected: Set<u128>)
    ensures
        all_deletions(drop_buckets(tables, max, protected).diffs),
        all_deletions(drop_buckets(tables, max, protected).pending),
    decreases tables.len(),
{
    if tables.len() > 0 {
        let st = drop_buckets(tables.drop_last(), max, protected);
        let slot = tables.last();
        lemma_drop_buckets_deletes(tables.drop_last(), max, protected);
        let dropped = drop_buckets_spec(slot.table, max, protected);
        lemma_bucket_diffs_are_deletions(
            droppable_buckets(slot.table.buckets, max, protected),
            slot.table.timeline,
            slot.table.entity_path,
        );
        lemma_merge_diffs_are_deletions(st.pending, dropped.diffs);
        lemma_merge_diffs_are_deletions(Seq::empty(), dropped.diffs);
    }
}

proof fn lemma_row_deletes(
    tables: Seq<TableSlot>,
    hash: u64,
    row_id: RowId,
    times: Seq<(Timeline, TimeInt)>,
)
    ensures
        drop_row_at_times(tables, hash, row_id, times).diff matches Some(diff)
            ==> diff.kind is Deletion,
    decreases times.len(),
{
    if times.len() > 0 {
        lemma_row_deletes(tables, hash, row_id, times.drop_last());
    }
}

proof fn lemma_rows_delete(tables: Seq<TableSlot>, budget: Option<u128>, rows: Seq<RowMeta>)
    ensures
        all_deletions(drop_rows(tables, budget, rows).diffs),
    decreases rows.len(),
{
    if rows.len() > 0 {
        lemma_rows_delete(tables, budget, rows.drop_last());
        let st = drop_rows(tables, budget, rows.drop_last());
        let row = rows.last();
        lemma_row_deletes(st.tables, row.hash, row.row_id, row.times);
    }
}

proof fn lemma_batch_deletes(
    rules: SweepRules,
    at: Sweep,
    batch: Seq<RowMeta>,
    batch_is_protected: bool,
)
    requires
        all_deletions(at.diffs),
    ensures
        all_deletions(sweep_batch(rules, at, batch, batch_is_protected).diffs),
{
    let max = batch.last().row_id;
    lemma_drop_buckets_deletes(at.tables, max, rules.protected);
    let buckets = drop_buckets(at.tables, max, rules.protected);
    lemma_rows_delete(at.tables, at.budget, batch);
    lemma_rows_delete(buckets.tables, less(at.budget, buckets.num_bytes), batch);
}

proof fn lemma_sweep_deletes(
    rules: SweepRules,
    at: Sweep,
    rows: Seq<RowMeta>,
    batch: Seq<RowMeta>,
    batch_is_protected: bool,
    num_batches: int,
)
    requires
        all_deletions(at.diffs),
    ensures
        all_deletions(
            sweep_rows(rules, at, rows, batch, batch_is_protected, num_batches).diffs,
        ),
    decreases rows.len(),
{
    if rows.len() == 0 {
        lemma_batch_deletes(rules, at, batch, batch_is_protected);
    } else {
        let full = batch.push(rows[0]);
        let rest = rows.skip(1);
        let then = sweep_batch(rules, at, full, batch_is_protected);
        lemma_batch_deletes(rules, at, full, batch_is_protected);
        lemma_batch_deletes(rules, then, full, batch_is_protected);
        lemma_sweep_deletes(rules, at, rest, batch, true, num_batches);
        lemma_sweep_deletes(rules, at, rest, full, batch_is_protected, num_batches);
        lemma_sweep_deletes(rules, then, rest, Seq::empty(), false, num_batches + 1);
    }
}

/// Whether reports are in the order of row ids, with one for each row.
pub open spec fn in_order(diffs: Seq<DiffView>) -> bool {
    forall|i: int, j: int|
        #![trigger diffs[i], diffs[j]]
        0 <= i < j < diffs.len() ==> diffs[i].row_id.bits < diffs[j].row_id.bits
}

proof fn lemma_diffs_below(diffs: Seq<DiffView>, row_id: RowId)
    requires
        in_order(diffs),
    ensures
        ({
            let n = crate::protect::diffs_below(diffs, row_id);
            &&& 0 <= n <= diffs.len()
            &&& forall|i: int|
                0 <= i < n ==> (#[trigger] diffs[i]).row_id.bits < row_id.bits
            &&& forall|i: int|
                n <= i < diffs.len() ==> (#[trigger] diffs[i]).row_id.bits >= row_id.bits
        }),
    decreases diffs.len(),
{
    if diffs.len() > 0 {
        let init = diffs.drop_last();
        assert(in_order(init)) by {
            assert forall|i: int, j: int|
                #![trigger init[i], init[j]]
                0 <= i < j < init.len() implies init[i].row_id.bits < init[j].row_id.bits by {
                assert(diffs[i].row_id.bits < diffs[j].row_id.bits);
            }
        }
        lemma_diffs_below(init, row_id);
        let n = crate::protect::diffs_below(diffs, row_id);
        if diffs.last().row_id.bits < row_id.bits {
            assert forall|i: int| 0 <= i < n implies (#[trigger] diffs[i]).row_id.bits
                < row_id.bits by {
                if i < diffs.len() - 1 {
                    assert(diffs[i].row_id.bits < diffs[diffs.len() - 1].row_id.bits);
                }
            }
        } else {
            assert forall|i: int| 0 <= i < n implies (#[trigger] diffs[i]).row_id.bits
                < row_id.bits by {
                assert(init[i].row_id.bits < row_id.bits);
            }
            assert forall|i: int| n <= i < diffs.len() implies (#[trigger] diffs[i]).row_id.bits
                >= row_id.bits by {
                if i < init.len() {
                    assert(init[i].row_id.bits >= row_id.bits);
                }
            }
        }
    }
}

proof fn lemma_put_purged(diffs: Seq<DiffView>, row: DiffView)
    requires
        in_order(diffs),
        all_deletions(diffs),
        row.kind is Deletion,
    ensures
        in_order(put_purged(diffs, row)),
        all_deletions(put_purged(diffs, row)),
{
    lemma_diffs_below(diffs, row.row_id);
    let n = crate::protect::diffs_below(diffs, row.row_id);
    let after = put_purged(diffs, row);
    let replaces = n < diffs.len() && diffs[n].row_id == row.row_id;
    assert forall|i: int, j: int|
        #![trigger after[i], after[j]]
        0 <= i < j < after.len() implies after[i].row_id.bits < after[j].row_id.bits by {
        if replaces {
            assert(diffs[i].row_id.bits < diffs[j].row_id.bits);
        } else {
            if n < diffs.len() {
                assert(diffs[n].row_id.bits >= row.row_id.bits);
            }
            if j < n {
                assert(diffs[i].row_id.bits < diffs[j].row_id.bits);
            } else if j == n {
                assert(diffs[i].row_id.bits < row.row_id.bits);
            } else if i < n {
                assert(diffs[i].row_id.bits < diffs[j - 1].row_id.bits);
            } else if i == n {
                assert(diffs[j - 1].row_id.bits >= row.row_id.bits);
                if j - 1 > n {
                    assert(diffs[n].row_id.bits < diffs[j - 1].row_id.bits);
                }
            } else {
                assert(diffs[i - 1].row_id.bits < diffs[j - 1].row_id.bits);
            }
        }
    }
    assert forall|d: int| 0 <= d < after.len() implies (#[trigger] after[d]).kind is Deletion by {
        if !replaces {
            if d < n {
                assert(diffs[d].kind is Deletion);
            } else if d > n {
                assert(diffs[d - 1].kind is Deletion);
            }
        }
    }
}

proof fn lemma_put_all_purged(diffs: Seq<DiffView>, rows: Seq<DiffView>)
    requires
        in_order(diffs),
        all_deletions(diffs),
        all_deletions(rows),
    ensures
        in_order(put_all_purged(diffs, rows)),
        all_deletions(put_all_purged(diffs, rows)),
    decreases rows.len(),
{
    if rows.len() > 0 {
        let init = rows.drop_last();
        assert(all_deletions(init)) by {
            assert forall|d: int| 0 <= d < init.len() implies (#[trigger] init[d]).kind is Deletion by {
                assert(rows[d].kind is Deletion);
            }
        }
        lemma_put_all_purged(diffs, init);
        assert(rows[rows.len() - 1].kind is Deletion);
        lemma_put_purged(put_all_purged(diffs, init), rows.last());
    }
}

/// Law: purging reports deletions, in the order of row ids, with one for each row.
pub proof fn law_purging_reports_in_order(tables: Seq<TableSlot>)
    ensures
        in_order(purge_spec(tables).diffs),
        all_deletions(purge_spec(tables).diffs),
    decreases tables.len(),
{
    if tables.len() > 0 {
        law_purging_reports_in_order(tables.drop_last());
        let slot = tables.last();
        lemma_bucket_diffs_are_deletions(
            slot.table.buckets,
            slot.table.timeline,
            slot.table.entity_path,
        );
        lemma_put_all_purged(
            purge_spec(tables.drop_last()).diffs,
            bucket_diffs(slot.table.buckets, slot.table.timeline, slot.table.entity_path),
        );
    }
}

/// Law: a collection reports nothing but deletions.
pub proof fn law_collections_report_deletions(
    store: StoreView,
    bucket_num_rows: u64,
    options: GarbageCollectionOptions,
    time_is_up: spec_fn(int) -> bool,
)
    ensures
        all_deletions(collected(store, bucket_num_rows, options, time_is_up).diffs),
{
    lemma_sweep_deletes(
        SweepRules {
            enable_batching: options.enable_batching,
            batch_size: batch_size_of(bucket_num_rows),
            protected: protected_by(store, options),
            time_is_up,
        },
        Sweep {
            tables: store.tables,
            heap_size: store.heap_size,
            budget: budget_of(options.target),
            diffs: Seq::empty(),
        },
        store.registry,
        Seq::empty(),
        false,
        0,
    );
    law_purging_reports_in_order(
        sweep_of(store, bucket_num_rows, options, time_is_up).tables,
    );
}

/// Law: a collection leaves static data alone, whatever it is told to do.
pub proof fn law_static_data_stays(
    store: StoreView,
    bucket_num_rows: u64,
    options: GarbageCollectionOptions,
    time_is_up: spec_fn(int) -> bool,
)
    ensures
        ({
            let after = collected(store, bucket_num_rows, options, time_is_up).store;
            after.statics == store.statics && after.types == store.types && after.insert_id
                == store.insert_id
        }),
{
}

} // verus!

//! What a collection reports: every row that goes, and no row twice.
use crate::bucket::{
    bucket_with, bucket_without, empty_bucket, new_bucket_row, present, row_index, widened,
    with_columns,
};
use crate::gc::{
    batch_size_of, budget_of, collected, drop_buckets, drop_row_at_times,
    drop_rows, less, merge_diff, merge_diffs, opt_seq, rows_temporal, spent, sweep_batch,
    sweep_rows, up_after, without_rows, GarbageCollectionOptions, Sweep, SweepRules,
    UNBOUNDED_NANOS,
};
use crate::names::{RowId, TimeInt, Timeline, TIME_MIN};
use crate::progress::{
    gone, gone_at, in_order, is_id_of, law_everything_unprotected_goes,
    lemma_drop_rows, lemma_shrink_trans, lemma_sweep_batch, num_swept, protected_by, sweep_of,
    tables_shrink,
};
use crate::protect::{purge_spec, put_all_purged};
use crate::path::entity_path_hash;
use crate::row::{timelines_distinct, times_temporal, DataCell, DiffView, RowView};
use crate::sorting::{insert_sorted, row_before, BucketRow};
use crate::stats::tables_rows;
use crate::store::{
    in_use, is_table_of, metas_below, registry_valid, slot_index, store_with, table_or_empty,
    tables_valid, tables_with, DataStoreConfig, RowMeta, StoreView, TableSlot,
};
use crate::survival::lemma_kept_holds;
use crate::table::{
    bucket_diffs, bucket_of, buckets_rows, drop_buckets_spec, drop_row_spec, droppable,
    droppable_buckets, table_with, TableBucket, TableView,
};
use re_log_types::EntityPath;
use vstd::prelude::*;

verus! {

// --- No row twice.

/// Whether rows are in the order of their ids.
pub open spec fn ascending(rows: Seq<RowMeta>) -> bool {
    forall|i: int, j: int|
        #![trigger rows[i], rows[j]]
        0 <= i < j < rows.len() ==> rows[i].row_id.bits < rows[j].row_id.bits
}

/// Whether all that is reported is of rows before some others.
pub open spec fn all_before(diffs: Seq<DiffView>, rows: Seq<RowMeta>) -> bool {
    forall|d: int, i: int|
        #![trigger diffs[d], rows[i]]
        0 <= d < diffs.len() && 0 <= i < rows.len() ==> diffs[d].row_id.bits
            < rows[i].row_id.bits
}

/// Dropping a row that is gone changes nothing and reports nothing.
proof fn lemma_gone_row(
    tables: Seq<TableSlot>,
    store_insert_ids: bool,
    row: RowMeta,
    times: Seq<(Timeline, TimeInt)>,
)
    requires
        tables_valid(tables, store_insert_ids),
        times_temporal(times),
        forall|j: int| 0 <= j < times.len() ==> gone_at(tables, row, #[trigger] times[j]),
    ensures
        drop_row_at_times(tables, row.hash, row.row_id, times).tables == tables,
        drop_row_at_times(tables, row.hash, row.row_id, times).diff is None,
    decreases times.len(),
{
    if times.len() > 0 {
        let init = times.drop_last();
        let n = init.len() as int;
        assert forall|j: int| 0 <= j < init.len() implies (#[trigger] init[j]).1.value >= TIME_MIN
            && gone_at(tables, row, init[j]) by {
            assert(times[j].1.value >= TIME_MIN);
            assert(gone_at(tables, row, times[j]));
        }
        lemma_gone_row(tables, store_insert_ids, row, init);
        assert(times[n].1.value >= TIME_MIN);
        assert(gone_at(tables, row, times[n]));
        let (timeline, time) = times.last();
        if let Some(i) = slot_index(tables, row.hash, timeline@) {
            assert(0 <= i < tables.len() && is_table_of(tables[i], row.hash, timeline@));
            crate::gc::lemma_table_of_valid(tables, store_insert_ids, i);
            let table = tables[i].table;
            assert(!table.has_row(row.row_id, time.value));
            crate::table::lemma_table_bucket_of(table, time.value);
            let b = bucket_of(table.buckets, time.value);
            if let Some(k) = row_index(table.buckets[b].bucket.rows, row.row_id, time.value) {
                assert(table.buckets[b].bucket.rows[k].row_id == row.row_id);
                assert(table.has_row(row.row_id, time.value));
            }
            assert(tables.update(i, TableSlot { hash: row.hash, table }) =~= tables);
        }
    }
}

proof fn lemma_gone_rows(
    tables: Seq<TableSlot>,
    store_insert_ids: bool,
    budget: Option<u128>,
    rows: Seq<RowMeta>,
)
    requires
        tables_valid(tables, store_insert_ids),
        rows_temporal(rows),
        forall|i: int| 0 <= i < rows.len() ==> gone(tables, #[trigger] rows[i]),
    ensures
        drop_rows(tables, budget, rows).tables == tables,
        drop_rows(tables, budget, rows).diffs.len() == 0,
    decreases rows.len(),
{
    if rows.len() > 0 {
        let init = rows.drop_last();
        assert forall|i: int| 0 <= i < init.len() implies times_temporal(
            (#[trigger] init[i]).times,
        ) && gone(tables, init[i]) by {
            assert(times_temporal(rows[i].times) && gone(tables, rows[i]));
        }
        lemma_gone_rows(tables, store_insert_ids, budget, init);
        let row = rows[rows.len() - 1];
        assert(times_temporal(row.times) && gone(tables, row));
        lemma_gone_row(tables, store_insert_ids, row, row.times);
    }
}

proof fn lemma_drop_rows_in_order(
    tables: Seq<TableSlot>,
    store_insert_ids: bool,
    budget: Option<u128>,
    rows: Seq<RowMeta>,
)
    requires
        tables_valid(tables, store_insert_ids),
        rows_temporal(rows),
        ascending(rows),
    ensures
        in_order(drop_rows(tables, budget, rows).diffs),
        forall|d: int|
            0 <= d < drop_rows(tables, budget, rows).diffs.len() ==> is_id_of(
                rows,
                rows.len() as int,
                (#[trigger] drop_rows(tables, budget, rows).diffs[d]).row_id,
            ),
    decreases rows.len(),
{
    let end = drop_rows(tables, budget, rows);
    lemma_drop_rows(tables, store_insert_ids, budget, rows);
    assert forall|d: int| 0 <= d < end.diffs.len() implies is_id_of(
        rows,
        rows.len() as int,
        (#[trigger] end.diffs[d]).row_id,
    ) by {
        let n = crate::progress::num_dropped(tables, budget, rows);
        assert(is_id_of(rows, n, end.diffs[d].row_id));
        let i = choose|i: int|
            0 <= i < n && i < rows.len() && (#[trigger] rows[i]).row_id == end.diffs[d].row_id;
        assert(rows[i].row_id == end.diffs[d].row_id);
    }
    if rows.len() > 0 {
        let init = rows.drop_last();
        let n = init.len() as int;
        assert forall|i: int| 0 <= i < init.len() implies times_temporal(
            (#[trigger] init[i]).times,
        ) by {
            assert(times_temporal(rows[i].times));
        }
        assert forall|i: int, j: int|
            #![trigger init[i], init[j]]
            0 <= i < j < init.len() implies init[i].row_id.bits < init[j].row_id.bits by {
            assert(rows[i].row_id.bits < rows[j].row_id.bits);
        }
        lemma_drop_rows_in_order(tables, store_insert_ids, budget, init);
        crate::gc::lemma_drop_rows_valid(tables, store_insert_ids, budget, init);
        let st = drop_rows(tables, budget, init);
        let row = rows[n];
        assert(times_temporal(row.times));
        crate::progress::lemma_drop_row_at_times_reports(
            st.tables,
            store_insert_ids,
            row,
            row.times,
        );
        assert forall|a: int, b: int|
            #![trigger end.diffs[a], end.diffs[b]]
            0 <= a < b < end.diffs.len() implies end.diffs[a].row_id.bits
            < end.diffs[b].row_id.bits by {
            assert(end.diffs[a] == st.diffs[a]);
            if b < st.diffs.len() {
                assert(end.diffs[b] == st.diffs[b]);
            } else {
                assert(is_id_of(init, n, st.diffs[a].row_id));
                let i = choose|i: int|
                    0 <= i < n && i < init.len() && (#[trigger] init[i]).row_id
                        == st.diffs[a].row_id;
                assert(rows[i] == init[i]);
                assert(rows[i].row_id.bits < rows[n].row_id.bits);
                assert(end.diffs[b].row_id == row.row_id);
            }
        }
    }
}

proof fn lemma_batch_in_order(
    rules: SweepRules,
    store_insert_ids: bool,
    at: Sweep,
    batch: Seq<RowMeta>,
    batch_is_protected: bool,
)
    requires
        !rules.enable_batching,
        tables_valid(at.tables, store_insert_ids),
        rows_temporal(batch),
        ascending(batch),
        in_order(at.diffs),
        all_before(at.diffs, batch),
    ensures
        ({
            let end = sweep_batch(rules, at, batch, batch_is_protected);
            &&& in_order(end.diffs)
            &&& forall|d: int|
                0 <= d < end.diffs.len() ==> {
                    ||| d < at.diffs.len() && (#[trigger] end.diffs[d]) == at.diffs[d]
                    ||| is_id_of(batch, batch.len() as int, end.diffs[d].row_id)
                }
        }),
{
    let end = sweep_batch(rules, at, batch, batch_is_protected);
    lemma_drop_rows_in_order(at.tables, store_insert_ids, at.budget, batch);
    let more = drop_rows(at.tables, at.budget, batch).diffs;
    if spent(at.budget) {
        assert(end.diffs =~= at.diffs);
    } else {
        assert(end.diffs =~= at.diffs + more);
        assert forall|d: int| 0 <= d < end.diffs.len() implies {
            ||| d < at.diffs.len() && (#[trigger] end.diffs[d]) == at.diffs[d]
            ||| is_id_of(batch, batch.len() as int, end.diffs[d].row_id)
        } by {
            if d >= at.diffs.len() {
                assert(end.diffs[d] == more[d - at.diffs.len()]);
            }
        }
        assert forall|a: int, b: int|
            #![trigger end.diffs[a], end.diffs[b]]
            0 <= a < b < end.diffs.len() implies end.diffs[a].row_id.bits
            < end.diffs[b].row_id.bits by {
            let m = at.diffs.len() as int;
            if b < m {
                assert(end.diffs[a] == at.diffs[a] && end.diffs[b] == at.diffs[b]);
            } else if a >= m {
                assert(end.diffs[a] == more[a - m] && end.diffs[b] == more[b - m]);
            } else {
                assert(end.diffs[a] == at.diffs[a] && end.diffs[b] == more[b - m]);
                let i = choose|i: int|
                    0 <= i < batch.len() && (#[trigger] batch[i]).row_id == more[b - m].row_id;
                assert(at.diffs[a].row_id.bits < batch[i].row_id.bits);
            }
        }
    }
}

proof fn lemma_sweep_in_order(
    rules: SweepRules,
    store_insert_ids: bool,
    at: Sweep,
    rows: Seq<RowMeta>,
    batch: Seq<RowMeta>,
    batch_is_protected: bool,
    num_batches: int,
)
    requires
        !rules.enable_batching,
        tables_valid(at.tables, store_insert_ids),
        rows_temporal(batch),
        rows_temporal(rows),
        ascending(batch + rows),
        in_order(at.diffs),
        all_before(at.diffs, batch + rows),
    ensures
        in_order(sweep_rows(rules, at, rows, batch, batch_is_protected, num_batches).diffs),
    decreases rows.len(),
{
    let all = batch + rows;
    if rows.len() == 0 {
        assert(all =~= batch);
        lemma_batch_in_order(rules, store_insert_ids, at, batch, batch_is_protected);
    } else {
        let row = rows[0];
        let rest = rows.skip(1);
        let n = batch.len() as int;
        let full = batch.push(row);
        assert(times_temporal(row.times));
        assert forall|i: int| 0 <= i < rest.len() implies times_temporal(
            (#[trigger] rest[i]).times,
        ) by {
            assert(times_temporal(rows[i + 1].times));
        }
        assert forall|i: int| 0 <= i < full.len() implies times_temporal(
            (#[trigger] full[i]).times,
        ) by {
            if i < n {
                assert(times_temporal(batch[i].times));
            }
        }
        assert(full + rest =~= all);
        if rules.protected.contains(row.row_id.bits) {
            let fewer = batch + rest;
            assert forall|i: int| 0 <= i < fewer.len() implies #[trigger] fewer[i] == all[if i < n {
                i
            } else {
                i + 1
            }] by {}
            assert forall|i: int, j: int|
                #![trigger fewer[i], fewer[j]]
                0 <= i < j < fewer.len() implies fewer[i].row_id.bits < fewer[j].row_id.bits by {
                let a = if i < n {
                    i
                } else {
                    i + 1
                };
                let b = if j < n {
                    j
                } else {
                    j + 1
                };
                assert(all[a].row_id.bits < all[b].row_id.bits);
            }
            assert forall|d: int, i: int|
                #![trigger at.diffs[d], fewer[i]]
                0 <= d < at.diffs.len() && 0 <= i < fewer.len() implies at.diffs[d].row_id.bits
                < fewer[i].row_id.bits by {
                let a = if i < n {
                    i
                } else {
                    i + 1
                };
                assert(at.diffs[d].row_id.bits < all[a].row_id.bits);
            }
            lemma_sweep_in_order(rules, store_insert_ids, at, rest, batch, true, num_batches);
        } else if full.len() < rules.batch_size {
            lemma_sweep_in_order(
                rules,
                store_insert_ids,
                at,
                rest,
                full,
                batch_is_protected,
                num_batches,
            );
        } else {
            let then = sweep_batch(rules, at, full, batch_is_protected);
            assert forall|i: int, j: int|
                #![trigger full[i], full[j]]
                0 <= i < j < full.len() implies full[i].row_id.bits < full[j].row_id.bits by {
                assert(all[i] == full[i] && all[j] == full[j]);
            }
            assert forall|d: int, i: int|
                #![trigger at.diffs[d], full[i]]
                0 <= d < at.diffs.len() && 0 <= i < full.len() implies at.diffs[d].row_id.bits
                < full[i].row_id.bits by {
                assert(all[i] == full[i]);
            }
            lemma_batch_in_order(rules, store_insert_ids, at, full, batch_is_protected);
            lemma_sweep_batch(rules, store_insert_ids, at, full, batch_is_protected);
            if (rules.time_is_up)(num_batches) || spent(then.budget) {
                let end = sweep_batch(rules, then, full, batch_is_protected);
                if !spent(then.budget) {
                    assert(num_swept(rules, at, full, batch_is_protected) == full.len());
                    lemma_gone_rows(then.tables, store_insert_ids, then.budget, full);
                }
                assert(end.diffs =~= then.diffs);
            } else {
                assert(Seq::<RowMeta>::empty() + rest =~= rest);
                assert forall|i: int, j: int|
                    #![trigger rest[i], rest[j]]
                    0 <= i < j < rest.len() implies rest[i].row_id.bits < rest[j].row_id.bits by {
                    assert(all[n + 1 + i] == rest[i] && all[n + 1 + j] == rest[j]);
                }
                assert forall|d: int, i: int|
                    #![trigger then.diffs[d], rest[i]]
                    0 <= d < then.diffs.len() && 0 <= i < rest.len() implies then.diffs[d].row_id.bits
                    < rest[i].row_id.bits by {
                    assert(all[n + 1 + i] == rest[i]);
                    if d < at.diffs.len() && then.diffs[d] == at.diffs[d] {
                        assert(at.diffs[d].row_id.bits < all[n + 1 + i].row_id.bits);
                    } else {
                        assert(is_id_of(full, full.len() as int, then.diffs[d].row_id));
                        let k = choose|k: int|
                            0 <= k < full.len() && (#[trigger] full[k]).row_id
                                == then.diffs[d].row_id;
                        assert(all[k] == full[k]);
                        assert(all[k].row_id.bits < all[n + 1 + i].row_id.bits);
                    }
                }
                lemma_sweep_in_order(
                    rules,
                    store_insert_ids,
                    then,
                    rest,
                    Seq::empty(),
                    false,
                    num_batches + 1,
                );
            }
        }
    }
}

/// Law: row by row, a collection drops rows in the order of their ids, and reports each of them once.
/// This is before tables without data are purged.
pub proof fn law_rows_are_dropped_in_order(
    store: StoreView,
    store_insert_ids: bool,
    bucket_num_rows: u64,
    options: GarbageCollectionOptions,
    time_is_up: spec_fn(int) -> bool,
)
    requires
        tables_valid(store.tables, store_insert_ids),
        registry_valid(store.registry),
        !options.enable_batching,
    ensures
        in_order(sweep_of(store, bucket_num_rows, options, time_is_up).diffs),
{
    assert(Seq::<RowMeta>::empty() + store.registry =~= store.registry);
    lemma_sweep_in_order(
        SweepRules {
            enable_batching: options.enable_batching,
            batch_size: batch_size_of(bucket_num_rows),
            protected: protected_by(store, options),
            time_is_up,
        },
        store_insert_ids,
        Sweep {
            tables: store.tables,
            heap_size: store.heap_size,
            budget: budget_of(options.target),
            diffs: Seq::empty(),
        },
        store.registry,
        Seq::empty(),
        false,
        0,
    );
}

// --- Every row that goes.

/// Whether a table holds a row.
pub open spec fn holds_row(table: TableView, row: BucketRow) -> bool {
    exists|b: int, i: int|
        0 <= b < table.buckets.len() && 0 <= i < table.buckets[b].bucket.rows.len()
            && #[trigger] table.buckets[b].bucket.rows[i] == row
}

/// Whether something is reported of a row.
pub open spec fn is_reported(diffs: Seq<DiffView>, row_id: RowId) -> bool {
    exists|d: int| 0 <= d < diffs.len() && (#[trigger] diffs[d]).row_id == row_id
}

/// Whether a row is still there, or was reported unless it had no cells.
pub open spec fn is_accounted(after: TableView, diffs: Seq<DiffView>, row: BucketRow) -> bool {
    holds_row(after, row) || present(row.cells).len() == 0 || is_reported(diffs, row.row_id)
}

/// Whether that is so for all rows of a table.
pub open spec fn table_accounted(
    before: TableView,
    after: TableView,
    diffs: Seq<DiffView>,
) -> bool {
    forall|row: BucketRow| #[trigger] holds_row(before, row) ==> is_accounted(after, diffs, row)
}

/// Whether that is so for all rows of several tables.
pub open spec fn accounted(
    before: Seq<TableSlot>,
    after: Seq<TableSlot>,
    diffs: Seq<DiffView>,
) -> bool {
    &&& after.len() == before.len()
    &&& forall|t: int|
        0 <= t < before.len() ==> table_accounted(
            before[t].table,
            (#[trigger] after[t]).table,
            diffs,
        )
}

proof fn lemma_reported_concat(a: Seq<DiffView>, b: Seq<DiffView>, row_id: RowId)
    requires
        is_reported(a, row_id) || is_reported(b, row_id),
    ensures
        is_reported(a + b, row_id),
{
    if is_reported(a, row_id) {
        let d = choose|d: int| 0 <= d < a.len() && (#[trigger] a[d]).row_id == row_id;
        assert((a + b)[d].row_id == row_id);
    } else {
        let d = choose|d: int| 0 <= d < b.len() && (#[trigger] b[d]).row_id == row_id;
        assert((a + b)[a.len() + d].row_id == row_id);
    }
}

/// What is accounted for step by step is accounted for as a whole.
proof fn lemma_accounted_trans(
    a: Seq<TableSlot>,
    b: Seq<TableSlot>,
    c: Seq<TableSlot>,
    first: Seq<DiffView>,
    second: Seq<DiffView>,
)
    requires
        accounted(a, b, first),
        accounted(b, c, second),
    ensures
        accounted(a, c, first + second),
{
    assert forall|t: int| 0 <= t < a.len() implies table_accounted(
        a[t].table,
        (#[trigger] c[t]).table,
        first + second,
    ) by {
        assert(table_accounted(a[t].table, b[t].table, first));
        assert forall|row: BucketRow| #[trigger] holds_row(a[t].table, row) implies is_accounted(
            c[t].table,
            first + second,
            row,
        ) by {
            assert(is_accounted(b[t].table, first, row));
            if holds_row(b[t].table, row) {
                assert(is_accounted(c[t].table, second, row));
            }
            if is_reported(first, row.row_id) || is_reported(second, row.row_id) {
                lemma_reported_concat(first, second, row.row_id);
            }
        }
    }
}

proof fn lemma_drop_row_accounted(table: TableView, row_id: RowId, time: TimeInt)
    requires
        table.valid(),
        time.value >= TIME_MIN,
    ensures
        ({
            let dropped = drop_row_spec(table, row_id, time);
            &&& table_accounted(table, dropped.table, opt_seq(dropped.diff))
            &&& dropped.diff matches Some(diff) ==> diff.row_id == row_id && table.has_row(
                row_id,
                time.value,
            )
        }),
{
    let dropped = drop_row_spec(table, row_id, time);
    let after = dropped.table;
    let k = bucket_of(table.buckets, time.value);
    crate::table::lemma_table_bucket_of(table, time.value);
    let bucket = table.buckets[k].bucket;
    if let Some(at) = row_index(bucket.rows, row_id, time.value) {
        assert(0 <= at < bucket.rows.len() && bucket.rows[at].row_id == row_id
            && bucket.rows[at].time == time.value);
        assert(table.has_row(row_id, time.value)) by {
            assert(table.buckets[k].bucket.rows[at].row_id == row_id);
        }
        let left = bucket_without(bucket, at);
        assert forall|row: BucketRow| #[trigger] holds_row(table, row) implies is_accounted(
            after,
            opt_seq(dropped.diff),
            row,
        ) by {
            let (b, i) = choose|b: int, i: int|
                0 <= b < table.buckets.len() && 0 <= i < table.buckets[b].bucket.rows.len()
                    && #[trigger] table.buckets[b].bucket.rows[i] == row;
            if b == k && i == at {
                if present(row.cells).len() > 0 {
                    assert(opt_seq(dropped.diff)[0].row_id == row.row_id);
                }
            } else if table.buckets.len() > 1 && left.rows.len() == 0 {
                let b2 = if b < k {
                    b
                } else {
                    b - 1
                };
                assert(table.buckets.remove(k)[b2] == table.buckets[b]);
                assert(after.buckets[b2].bucket.rows[i] == row);
            } else if b == k {
                let i2 = if i < at {
                    i
                } else {
                    i - 1
                };
                assert(after.buckets[b].bucket.rows[i2] == row);
            } else {
                assert(after.buckets[b].bucket.rows[i] == row);
            }
        }
    } else {
        assert forall|row: BucketRow| #[trigger] holds_row(table, row) implies is_accounted(
            after,
            opt_seq(dropped.diff),
            row,
        ) by {}
    }
}

/// Whether all that is reported is of rows that tables have.
pub open spec fn are_held(tables: Seq<TableSlot>, diffs: Seq<DiffView>) -> bool {
    forall|d: int| 0 <= d < diffs.len() ==> is_held(tables, (#[trigger] diffs[d]).row_id)
}

pub open spec fn is_held(tables: Seq<TableSlot>, row_id: RowId) -> bool {
    exists|t: int, time: i64|
        0 <= t < tables.len() && #[trigger] tables[t].table.has_row(row_id, time)
}

proof fn lemma_held_before(before: Seq<TableSlot>, after: Seq<TableSlot>, row_id: RowId)
    requires
        tables_shrink(before, after),
        is_held(after, row_id),
    ensures
        is_held(before, row_id),
{
    let (t, time) = choose|t: int, time: i64|
        0 <= t < after.len() && #[trigger] after[t].table.has_row(row_id, time);
    assert(after[t].hash == before[t].hash);
    assert(before[t].table.has_row(row_id, time));
}

proof fn lemma_are_held_concat(
    before: Seq<TableSlot>,
    after: Seq<TableSlot>,
    a: Seq<DiffView>,
    b: Seq<DiffView>,
)
    requires
        tables_shrink(before, after),
        are_held(before, a),
        are_held(after, b),
    ensures
        are_held(before, a + b),
{
    assert forall|d: int| 0 <= d < (a + b).len() implies is_held(
        before,
        (#[trigger] (a + b)[d]).row_id,
    ) by {
        if d < a.len() {
            assert((a + b)[d] == a[d]);
        } else {
            assert((a + b)[d] == b[d - a.len()]);
            lemma_held_before(before, after, b[d - a.len()].row_id);
        }
    }
}

proof fn lemma_same_accounted(tables: Seq<TableSlot>)
    ensures
        accounted(tables, tables, Seq::empty()),
        tables_shrink(tables, tables),
{
    assert forall|t: int| 0 <= t < tables.len() implies table_accounted(
        tables[t].table,
        (#[trigger] tables[t]).table,
        Seq::empty(),
    ) by {
        assert forall|row: BucketRow| #[trigger]
            holds_row(tables[t].table, row) implies is_accounted(
            tables[t].table,
            Seq::empty(),
            row,
        ) by {}
    }
}

proof fn lemma_drop_row_at_times_accounted(
    tables: Seq<TableSlot>,
    store_insert_ids: bool,
    row: RowMeta,
    times: Seq<(Timeline, TimeInt)>,
)
    requires
        tables_valid(tables, store_insert_ids),
        times_temporal(times),
    ensures
        ({
            let dropped = drop_row_at_times(tables, row.hash, row.row_id, times);
            &&& accounted(tables, dropped.tables, opt_seq(dropped.diff))
            &&& tables_shrink(tables, dropped.tables)
            &&& dropped.diff matches Some(diff) ==> diff.row_id == row.row_id && is_held(
                tables,
                row.row_id,
            )
        }),
    decreases times.len(),
{
    if times.len() == 0 {
        lemma_same_accounted(tables);
    } else {
        let init = times.drop_last();
        assert(times_temporal(init)) by {
            assert forall|i: int| 0 <= i < init.len() implies (#[trigger] init[i]).1.value
                >= TIME_MIN by {
                assert(times[i].1.value >= TIME_MIN);
            }
        }
        assert(times[times.len() - 1].1.value >= TIME_MIN);
        lemma_drop_row_at_times_accounted(tables, store_insert_ids, row, init);
        crate::progress::lemma_drop_row_at_times_shrinks(tables, store_insert_ids, row, times);
        crate::gc::lemma_drop_row_at_times_valid(
            tables,
            store_insert_ids,
            row.hash,
            row.row_id,
            init,
        );
        let st = drop_row_at_times(tables, row.hash, row.row_id, init);
        let end = drop_row_at_times(tables, row.hash, row.row_id, times);
        let (timeline, time) = times.last();
        if let Some(i) = slot_index(st.tables, row.hash, timeline@) {
            assert(0 <= i < st.tables.len() && is_table_of(st.tables[i], row.hash, timeline@));
            crate::gc::lemma_table_of_valid(st.tables, store_insert_ids, i);
            lemma_drop_row_accounted(st.tables[i].table, row.row_id, time);
            let dropped = drop_row_spec(st.tables[i].table, row.row_id, time);
            lemma_same_accounted(st.tables);
            assert(accounted(st.tables, end.tables, opt_seq(dropped.diff))) by {
                assert forall|t: int| 0 <= t < st.tables.len() implies table_accounted(
                    st.tables[t].table,
                    (#[trigger] end.tables[t]).table,
                    opt_seq(dropped.diff),
                ) by {
                    if t != i {
                        assert(end.tables[t] == st.tables[t]);
                        assert forall|r: BucketRow| #[trigger]
                            holds_row(st.tables[t].table, r) implies is_accounted(
                            end.tables[t].table,
                            opt_seq(dropped.diff),
                            r,
                        ) by {}
                    }
                }
            }
            let both = opt_seq(st.diff) + opt_seq(dropped.diff);
            lemma_accounted_trans(
                tables,
                st.tables,
                end.tables,
                opt_seq(st.diff),
                opt_seq(dropped.diff),
            );
            if dropped.diff is Some && st.diff is None {
                assert(is_held(st.tables, row.row_id)) by {
                    assert(st.tables[i].table.has_row(row.row_id, time.value));
                }
                lemma_held_before(tables, st.tables, row.row_id);
            }
            assert forall|t: int| 0 <= t < tables.len() implies table_accounted(
                tables[t].table,
                (#[trigger] end.tables[t]).table,
                opt_seq(end.diff),
            ) by {
                assert(table_accounted(tables[t].table, end.tables[t].table, both));
                assert forall|r: BucketRow| #[trigger]
                    holds_row(tables[t].table, r) implies is_accounted(
                    end.tables[t].table,
                    opt_seq(end.diff),
                    r,
                ) by {
                    assert(is_accounted(end.tables[t].table, both, r));
                    if is_reported(both, r.row_id) {
                        let d = choose|d: int|
                            0 <= d < both.len() && (#[trigger] both[d]).row_id == r.row_id;
                        assert(both[d].row_id == row.row_id);
                        assert(opt_seq(end.diff)[0].row_id == row.row_id);
                    }
                }
            }
        }
    }
}

proof fn lemma_drop_rows_accounted(
    tables: Seq<TableSlot>,
    store_insert_ids: bool,
    budget: Option<u128>,
    rows: Seq<RowMeta>,
)
    requires
        tables_valid(tables, store_insert_ids),
        rows_temporal(rows),
    ensures
        ({
            let end = drop_rows(tables, budget, rows);
            &&& accounted(tables, end.tables, end.diffs)
            &&& tables_shrink(tables, end.tables)
            &&& are_held(tables, end.diffs)
        }),
    decreases rows.len(),
{
    if rows.len() == 0 {
        lemma_same_accounted(tables);
    } else {
        let init = rows.drop_last();
        assert forall|i: int| 0 <= i < init.len() implies times_temporal(
            (#[trigger] init[i]).times,
        ) by {
            assert(times_temporal(rows[i].times));
        }
        lemma_drop_rows_accounted(tables, store_insert_ids, budget, init);
        crate::gc::lemma_drop_rows_valid(tables, store_insert_ids, budget, init);
        let st = drop_rows(tables, budget, init);
        let row = rows[rows.len() - 1];
        assert(times_temporal(row.times));
        lemma_drop_row_at_times_accounted(st.tables, store_insert_ids, row, row.times);
        let dropped = drop_row_at_times(st.tables, row.hash, row.row_id, row.times);
        lemma_accounted_trans(
            tables,
            st.tables,
            dropped.tables,
            st.diffs,
            opt_seq(dropped.diff),
        );
        lemma_shrink_trans(tables, st.tables, dropped.tables);
        lemma_are_held_concat(tables, st.tables, st.diffs, opt_seq(dropped.diff));
    }
}

proof fn lemma_bucket_diffs_cover(
    buckets: Seq<TableBucket>,
    timeline: Timeline,
    entity_path: EntityPath,
    b: int,
    i: int,
)
    requires
        0 <= b < buckets.len(),
        0 <= i < buckets[b].bucket.rows.len(),
    ensures
        is_reported(
            bucket_diffs(buckets, timeline, entity_path),
            buckets[b].bucket.rows[i].row_id,
        ),
    decreases buckets.len(),
{
    let init = buckets.drop_last();
    let before = bucket_diffs(init, timeline, entity_path);
    let own = crate::table::rows_diffs(buckets.last().bucket.rows, timeline, entity_path);
    let row_id = buckets[b].bucket.rows[i].row_id;
    if b < init.len() {
        lemma_bucket_diffs_cover(init, timeline, entity_path, b, i);
    } else {
        assert(own[i].row_id == row_id);
    }
    lemma_reported_concat(before, own, row_id);
}

proof fn lemma_bucket_diffs_held(
    buckets: Seq<TableBucket>,
    timeline: Timeline,
    entity_path: EntityPath,
    d: int,
) -> (at: (int, int))
    requires
        0 <= d < bucket_diffs(buckets, timeline, entity_path).len(),
    ensures
        0 <= at.0 < buckets.len(),
        0 <= at.1 < buckets[at.0].bucket.rows.len(),
        buckets[at.0].bucket.rows[at.1].row_id == bucket_diffs(
            buckets,
            timeline,
            entity_path,
        )[d].row_id,
    decreases buckets.len(),
{
    let init = buckets.drop_last();
    let before = bucket_diffs(init, timeline, entity_path);
    if d < before.len() {
        lemma_bucket_diffs_held(init, timeline, entity_path, d)
    } else {
        (init.len() as int, d - before.len())
    }
}

pub proof fn lemma_droppable_covers(
    buckets: Seq<TableBucket>,
    max: RowId,
    protected: Set<u128>,
    b: int,
) -> (a: int)
    requires
        0 <= b < buckets.len(),
        droppable(buckets[b].bucket, max, protected),
    ensures
        0 <= a < droppable_buckets(buckets, max, protected).len(),
        droppable_buckets(buckets, max, protected)[a] == buckets[b],
    decreases buckets.len(),
{
    let init = buckets.drop_last();
    if b < init.len() {
        lemma_droppable_covers(init, max, protected, b)
    } else {
        droppable_buckets(init, max, protected).len() as int
    }
}

pub proof fn lemma_droppable_held(
    buckets: Seq<TableBucket>,
    max: RowId,
    protected: Set<u128>,
    a: int,
) -> (b: int)
    requires
        0 <= a < droppable_buckets(buckets, max, protected).len(),
    ensures
        0 <= b < buckets.len(),
        droppable_buckets(buckets, max, protected)[a] == buckets[b],
    decreases buckets.len(),
{
    let init = buckets.drop_last();
    if a < droppable_buckets(init, max, protected).len() {
        lemma_droppable_held(init, max, protected, a)
    } else {
        init.len() as int
    }
}

proof fn lemma_drop_buckets_spec_accounted(table: TableView, max: RowId, protected: Set<u128>)
    ensures
        ({
            let dropped = drop_buckets_spec(table, max, protected);
            &&& table_accounted(table, dropped.table, dropped.diffs)
            &&& forall|d: int|
                0 <= d < dropped.diffs.len() ==> exists|time: i64| #[trigger]
                    table.has_row((#[trigger] dropped.diffs[d]).row_id, time)
        }),
{
    let dropped = drop_buckets_spec(table, max, protected);
    let gone = droppable_buckets(table.buckets, max, protected);
    assert forall|row: BucketRow| #[trigger] holds_row(table, row) implies is_accounted(
        dropped.table,
        dropped.diffs,
        row,
    ) by {
        let (b, i) = choose|b: int, i: int|
            0 <= b < table.buckets.len() && 0 <= i < table.buckets[b].bucket.rows.len()
                && #[trigger] table.buckets[b].bucket.rows[i] == row;
        if droppable(table.buckets[b].bucket, max, protected) {
            let a = lemma_droppable_covers(table.buckets, max, protected, b);
            lemma_bucket_diffs_cover(gone, table.timeline, table.entity_path, a, i);
        } else {
            let a = lemma_kept_holds(table.buckets, max, protected, b);
            assert(dropped.table.buckets[a].bucket.rows[i] == row);
        }
    }
    assert forall|d: int| 0 <= d < dropped.diffs.len() implies exists|time: i64| #[trigger]
        table.has_row((#[trigger] dropped.diffs[d]).row_id, time) by {
        let (a, i) = lemma_bucket_diffs_held(gone, table.timeline, table.entity_path, d);
        let b = lemma_droppable_held(table.buckets, max, protected, a);
        let row = table.buckets[b].bucket.rows[i];
        assert(table.buckets[b].bucket.rows[i].row_id == dropped.diffs[d].row_id);
        assert(table.has_row(dropped.diffs[d].row_id, row.time));
    }
}

/// Merging reports loses none and makes up none.
proof fn lemma_merge_reports(diffs: Seq<DiffView>, removed: Seq<DiffView>)
    ensures
        forall|row_id: RowId|
            #![trigger is_reported(merge_diffs(diffs, removed), row_id)]
            is_reported(merge_diffs(diffs, removed), row_id) <==> is_reported(diffs, row_id)
                || is_reported(removed, row_id),
    decreases removed.len(),
{
    if removed.len() > 0 {
        let init = removed.drop_last();
        let last = removed[removed.len() - 1];
        lemma_merge_reports(diffs, init);
        let rest = merge_diffs(diffs, init);
        let all = merge_diffs(diffs, removed);
        lemma_diff_index_found(rest, last.row_id);
        assert(all == merge_diff(rest, last));
        if crate::gc::diff_index(rest, last.row_id) is None {
            assert(all == rest.push(last));
        }
        assert forall|row_id: RowId|
            #![trigger is_reported(all, row_id)]
            is_reported(all, row_id) <==> is_reported(diffs, row_id) || is_reported(
                removed,
                row_id,
            ) by {
            assert(is_reported(rest, row_id) <==> is_reported(diffs, row_id) || is_reported(
                init,
                row_id,
            ));
            if is_reported(rest, row_id) {
                let d = choose|d: int| 0 <= d < rest.len() && (#[trigger] rest[d]).row_id == row_id;
                assert(all[d].row_id == row_id);
            }
            if is_reported(init, row_id) {
                let d = choose|d: int| 0 <= d < init.len() && (#[trigger] init[d]).row_id == row_id;
                assert(removed[d].row_id == row_id);
            }
            if last.row_id == row_id {
                if let Some(i) = crate::gc::diff_index(rest, last.row_id) {
                    assert(all[i].row_id == row_id);
                } else {
                    assert(all[all.len() - 1].row_id == row_id);
                }
                assert(is_reported(all, row_id));
                assert(is_reported(removed, row_id));
            }
            if is_reported(all, row_id) {
                let d = choose|d: int| 0 <= d < all.len() && (#[trigger] all[d]).row_id == row_id;
                if d < rest.len() {
                    assert(rest[d].row_id == row_id);
                }
            }
            if is_reported(removed, row_id) {
                let d = choose|d: int|
                    0 <= d < removed.len() && (#[trigger] removed[d]).row_id == row_id;
                if d < init.len() {
                    assert(init[d].row_id == row_id);
                }
            }
        }
    }
}

pub proof fn lemma_diff_index_found(diffs: Seq<DiffView>, row_id: RowId)
    ensures
        crate::gc::diff_index(diffs, row_id) matches Some(i) ==> 0 <= i < diffs.len()
            && diffs[i].row_id == row_id,
    decreases diffs.len(),
{
    if diffs.len() > 0 {
        lemma_diff_index_found(diffs.drop_last(), row_id);
    }
}

proof fn lemma_drop_buckets_accounted(
    tables: Seq<TableSlot>,
    max: RowId,
    protected: Set<u128>,
)
    ensures
        ({
            let dropped = drop_buckets(tables, max, protected);
            &&& accounted(tables, dropped.tables, dropped.diffs + dropped.pending)
            &&& are_held(tables, dropped.diffs)
            &&& are_held(tables, dropped.pending)
        }),
    decreases tables.len(),
{
    if tables.len() == 0 {
        lemma_same_accounted(tables);
        assert(drop_buckets(tables, max, protected).diffs + drop_buckets(
            tables,
            max,
            protected,
        ).pending =~= Seq::empty());
    } else {
        let init = tables.drop_last();
        let n = init.len() as int;
        let slot = tables.last();
        lemma_drop_buckets_accounted(init, max, protected);
        lemma_drop_buckets_spec_accounted(slot.table, max, protected);
        let st = drop_buckets(init, max, protected);
        let end = drop_buckets(tables, max, protected);
        let dropped = drop_buckets_spec(slot.table, max, protected);
        let all = end.diffs + end.pending;
        lemma_merge_reports(st.pending, dropped.diffs);
        lemma_merge_reports(Seq::empty(), dropped.diffs);
        assert forall|row_id: RowId|
            #![trigger is_reported(all, row_id)]
            is_reported(st.diffs + st.pending, row_id) || is_reported(
                dropped.diffs,
                row_id,
            ) implies is_reported(all, row_id) by {
            lemma_reported_split(st.diffs, st.pending, row_id);
            if is_reported(st.diffs, row_id) || is_reported(st.pending, row_id) {
                if is_reported(st.diffs, row_id) || st.hash != Some(slot.hash) {
                    lemma_reported_concat(st.diffs, st.pending, row_id);
                }
            }
            assert(is_reported(end.diffs, row_id) || is_reported(end.pending, row_id));
            lemma_reported_concat(end.diffs, end.pending, row_id);
        }
        assert forall|t: int| 0 <= t < tables.len() implies table_accounted(
            tables[t].table,
            (#[trigger] end.tables[t]).table,
            all,
        ) by {
            assert forall|row: BucketRow| #[trigger]
                holds_row(tables[t].table, row) implies is_accounted(
                end.tables[t].table,
                all,
                row,
            ) by {
                if t < n {
                    assert(end.tables[t] == st.tables[t]);
                    assert(init[t] == tables[t]);
                    assert(table_accounted(init[t].table, st.tables[t].table, st.diffs + st.pending));
                    assert(is_accounted(st.tables[t].table, st.diffs + st.pending, row));
                    assert(is_reported(st.diffs + st.pending, row.row_id) ==> is_reported(
                        all,
                        row.row_id,
                    ));
                } else {
                    assert(end.tables[t].table == dropped.table);
                    assert(is_reported(dropped.diffs, row.row_id) ==> is_reported(all, row.row_id));
                    assert(is_accounted(dropped.table, dropped.diffs, row));
                }
            }
        }
        assert forall|row_id: RowId|
            #![trigger is_held(init, row_id)]
            is_held(init, row_id) implies is_held(tables, row_id) by {
            let (t, time) = choose|t: int, time: i64|
                0 <= t < init.len() && #[trigger] init[t].table.has_row(row_id, time);
            assert(tables[t].table.has_row(row_id, time));
        }
        assert forall|d: int| 0 <= d < end.diffs.len() implies is_held(
            tables,
            (#[trigger] end.diffs[d]).row_id,
        ) by {
            if d < st.diffs.len() {
                assert(end.diffs[d] == st.diffs[d]);
                assert(is_held(init, st.diffs[d].row_id));
            } else {
                assert(end.diffs[d] == st.pending[d - st.diffs.len()]);
                assert(is_held(init, st.pending[d - st.diffs.len()].row_id));
            }
        }
        assert forall|d: int| 0 <= d < end.pending.len() implies is_held(
            tables,
            (#[trigger] end.pending[d]).row_id,
        ) by {
            let row_id = end.pending[d].row_id;
            assert(is_reported(end.pending, row_id));
            if is_reported(dropped.diffs, row_id) {
                let k = choose|k: int|
                    0 <= k < dropped.diffs.len() && (#[trigger] dropped.diffs[k]).row_id == row_id;
                let time = choose|time: i64| #[trigger] slot.table.has_row(
                    dropped.diffs[k].row_id,
                    time,
                );
                assert(tables[n].table.has_row(row_id, time));
            } else {
                assert(is_reported(st.pending, row_id));
                let k = choose|k: int|
                    0 <= k < st.pending.len() && (#[trigger] st.pending[k]).row_id == row_id;
                assert(is_held(init, st.pending[k].row_id));
            }
        }
    }
}

proof fn lemma_reported_split(a: Seq<DiffView>, b: Seq<DiffView>, row_id: RowId)
    ensures
        is_reported(a + b, row_id) ==> is_reported(a, row_id) || is_reported(b, row_id),
{
    if is_reported(a + b, row_id) {
        let d = choose|d: int| 0 <= d < (a + b).len() && (#[trigger] (a + b)[d]).row_id == row_id;
        if d < a.len() {
            assert(a[d].row_id == row_id);
        } else {
            assert(b[d - a.len()].row_id == row_id);
        }
    }
}

proof fn lemma_batch_accounted(
    rules: SweepRules,
    store_insert_ids: bool,
    at: Sweep,
    batch: Seq<RowMeta>,
    batch_is_protected: bool,
) -> (more: Seq<DiffView>)
    requires
        tables_valid(at.tables, store_insert_ids),
        rows_temporal(batch),
    ensures
        ({
            let end = sweep_batch(rules, at, batch, batch_is_protected);
            &&& end.diffs == at.diffs + more
            &&& tables_valid(end.tables, store_insert_ids)
            &&& tables_shrink(at.tables, end.tables)
            &&& accounted(at.tables, end.tables, more)
            &&& are_held(at.tables, more)
        }),
{
    lemma_sweep_batch(rules, store_insert_ids, at, batch, batch_is_protected);
    let (tables, first, budget) = if rules.enable_batching && batch.len() > 0
        && !batch_is_protected {
        let max = batch.last().row_id;
        let dropped = drop_buckets(at.tables, max, rules.protected);
        lemma_drop_buckets_accounted(at.tables, max, rules.protected);
        crate::gc::lemma_drop_buckets_tables(at.tables, store_insert_ids, max, rules.protected);
        crate::progress::lemma_drop_buckets_shrinks(
            at.tables,
            store_insert_ids,
            max,
            rules.protected,
        );
        lemma_same_accounted(at.tables);
        lemma_are_held_concat(at.tables, at.tables, dropped.diffs, dropped.pending);
        (
            dropped.tables,
            dropped.diffs + dropped.pending,
            less(at.budget, dropped.num_bytes),
        )
    } else {
        lemma_same_accounted(at.tables);
        (at.tables, Seq::empty(), at.budget)
    };
    if spent(budget) {
        first
    } else {
        lemma_drop_rows_accounted(tables, store_insert_ids, budget, batch);
        let rows = drop_rows(tables, budget, batch);
        lemma_accounted_trans(at.tables, tables, rows.tables, first, rows.diffs);
        lemma_are_held_concat(at.tables, tables, first, rows.diffs);
        first + rows.diffs
    }
}

proof fn lemma_sweep_accounted(
    rules: SweepRules,
    store_insert_ids: bool,
    at: Sweep,
    rows: Seq<RowMeta>,
    batch: Seq<RowMeta>,
    batch_is_protected: bool,
    num_batches: int,
) -> (more: Seq<DiffView>)
    requires
        tables_valid(at.tables, store_insert_ids),
        rows_temporal(batch),
        rows_temporal(rows),
    ensures
        ({
            let end = sweep_rows(rules, at, rows, batch, batch_is_protected, num_batches);
            &&& end.diffs == at.diffs + more
            &&& tables_valid(end.tables, store_insert_ids)
            &&& tables_shrink(at.tables, end.tables)
            &&& accounted(at.tables, end.tables, more)
            &&& are_held(at.tables, more)
        }),
    decreases rows.len(),
{
    if rows.len() == 0 {
        lemma_batch_accounted(rules, store_insert_ids, at, batch, batch_is_protected)
    } else {
        let row = rows[0];
        let rest = rows.skip(1);
        let full = batch.push(row);
        assert(times_temporal(row.times));
        assert forall|i: int| 0 <= i < rest.len() implies times_temporal(
            (#[trigger] rest[i]).times,
        ) by {
            assert(times_temporal(rows[i + 1].times));
        }
        assert forall|i: int| 0 <= i < full.len() implies times_temporal(
            (#[trigger] full[i]).times,
        ) by {
            if i < batch.len() {
                assert(times_temporal(batch[i].times));
            }
        }
        if rules.protected.contains(row.row_id.bits) {
            lemma_sweep_accounted(rules, store_insert_ids, at, rest, batch, true, num_batches)
        } else if full.len() < rules.batch_size {
            lemma_sweep_accounted(
                rules,
                store_insert_ids,
                at,
                rest,
                full,
                batch_is_protected,
                num_batches,
            )
        } else {
            let then = sweep_batch(rules, at, full, batch_is_protected);
            let end = sweep_rows(rules, at, rows, batch, batch_is_protected, num_batches);
            let first = lemma_batch_accounted(
                rules,
                store_insert_ids,
                at,
                full,
                batch_is_protected,
            );
            let second = if (rules.time_is_up)(num_batches) || spent(then.budget) {
                lemma_batch_accounted(rules, store_insert_ids, then, full, batch_is_protected)
            } else {
                lemma_sweep_accounted(
                    rules,
                    store_insert_ids,
                    then,
                    rest,
                    Seq::empty(),
                    false,
                    num_batches + 1,
                )
            };
            lemma_accounted_trans(at.tables, then.tables, end.tables, first, second);
            lemma_shrink_trans(at.tables, then.tables, end.tables);
            lemma_are_held_concat(at.tables, then.tables, first, second);
            assert(at.diffs + first + second =~= at.diffs + (first + second));
            first + second
        }
    }
}

/// Law: what goes is reported, and nothing else. Every row of a table that has cells is still there
/// after a collection or is reported, and all that is reported is of rows that were there. This is
/// before tables without data are purged.
pub proof fn law_what_goes_is_reported(
    store: StoreView,
    store_insert_ids: bool,
    bucket_num_rows: u64,
    options: GarbageCollectionOptions,
    time_is_up: spec_fn(int) -> bool,
)
    requires
        tables_valid(store.tables, store_insert_ids),
        registry_valid(store.registry),
    ensures
        ({
            let end = sweep_of(store, bucket_num_rows, options, time_is_up);
            &&& accounted(store.tables, end.tables, end.diffs)
            &&& are_held(store.tables, end.diffs)
        }),
{
    let end = sweep_of(store, bucket_num_rows, options, time_is_up);
    let more = lemma_sweep_accounted(
        SweepRules {
            enable_batching: options.enable_batching,
            batch_size: batch_size_of(bucket_num_rows),
            protected: protected_by(store, options),
            time_is_up,
        },
        store_insert_ids,
        Sweep {
            tables: store.tables,
            heap_size: store.heap_size,
            budget: budget_of(options.target),
            diffs: Seq::empty(),
        },
        store.registry,
        Seq::empty(),
        false,
        0,
    );
    assert(end.diffs =~= more);
}

// --- Nothing left.

/// Whether every row of every table is registered, with the time that the table has it at.
pub open spec fn rows_registered(store: StoreView) -> bool {
    forall|t: int, row_id: RowId, time: i64|
        #![trigger store.tables[t].table.has_row(row_id, time)]
        0 <= t < store.tables.len() && store.tables[t].table.has_row(row_id, time)
            ==> is_registered_at(store.registry, store.tables[t], row_id, time)
}

pub open spec fn is_registered_at(
    registry: Seq<RowMeta>,
    slot: TableSlot,
    row_id: RowId,
    time: i64,
) -> bool {
    exists|k: int, j: int|
        0 <= k < registry.len() && registry[k].row_id == row_id && registry[k].hash == slot.hash
            && 0 <= j < registry[k].times.len() && (#[trigger] registry[k].times[j]).0@
            == slot.table.timeline@ && registry[k].times[j].1.value == time
}

/// Whether every row of every table has a cell.
pub open spec fn rows_have_cells(tables: Seq<TableSlot>) -> bool {
    forall|t: int, row: BucketRow|
        #![trigger holds_row(tables[t].table, row)]
        0 <= t < tables.len() && holds_row(tables[t].table, row) ==> present(row.cells).len() > 0
}

/// A table without rows counts none.
proof fn lemma_no_rows(table: TableView)
    requires
        table.valid(),
        forall|row_id: RowId, time: i64| !#[trigger] table.has_row(row_id, time),
    ensures
        table.num_rows == 0,
        table.buckets.len() == 1,
        table.buckets[0].bucket.rows.len() == 0,
{
    reveal(TableView::valid);
    assert(table.buckets[0].bucket.rows.len() == 0) by {
        if table.buckets[0].bucket.rows.len() > 0 {
            let row = table.buckets[0].bucket.rows[0];
            assert(table.has_row(row.row_id, row.time));
        }
    }
    assert(table.buckets.len() == 1) by {
        assert(table.buckets[0].bucket.valid());
    }
    assert(table.buckets.drop_last() =~= Seq::empty());
    reveal_with_fuel(buckets_rows, 2);
}

proof fn lemma_no_rows_anywhere(tables: Seq<TableSlot>, store_insert_ids: bool)
    requires
        tables_valid(tables, store_insert_ids),
        forall|t: int, row_id: RowId, time: i64|
            #![trigger tables[t].table.has_row(row_id, time)]
            0 <= t < tables.len() ==> !tables[t].table.has_row(row_id, time),
    ensures
        tables_rows(tables) == 0,
        tables_rows(purge_spec(tables).tables) == 0,
        purge_spec(tables).diffs.len() == 0,
    decreases tables.len(),
{
    if tables.len() > 0 {
        let init = tables.drop_last();
        let n = init.len() as int;
        assert(init =~= tables.take(n));
        crate::gc::lemma_tables_prefix_valid(tables, store_insert_ids, n);
        assert forall|t: int, row_id: RowId, time: i64|
            #![trigger init[t].table.has_row(row_id, time)]
            0 <= t < init.len() implies !init[t].table.has_row(row_id, time) by {
            assert(!tables[t].table.has_row(row_id, time));
        }
        lemma_no_rows_anywhere(init, store_insert_ids);
        crate::gc::lemma_table_of_valid(tables, store_insert_ids, n);
        let table = tables[n].table;
        assert forall|row_id: RowId, time: i64| !#[trigger] table.has_row(row_id, time) by {
            assert(!tables[n].table.has_row(row_id, time));
        }
        lemma_no_rows(table);
        let rest = purge_spec(init);
        assert(rest.tables.push(tables[n]).drop_last() =~= rest.tables);
        let diffs = bucket_diffs(table.buckets, table.timeline, table.entity_path);
        assert(table.buckets.drop_last() =~= Seq::empty());
        reveal_with_fuel(bucket_diffs, 2);
        assert(diffs =~= Seq::empty());
        reveal_with_fuel(put_all_purged, 2);
    }
}

/// Nothing is protected if no revision is to be.
proof fn lemma_nothing_protected(store: StoreView, options: GarbageCollectionOptions, bits: u128)
    requires
        options.protect_latest == 0,
    ensures
        !protected_by(store, options).contains(bits),
{
}

/// Law: a collection of everything that protects nothing and has no bound on its time leaves no row
/// in any table. It reports exactly the rows that were in the tables, provided that all of them had
/// cells.
pub proof fn law_nothing_is_left(
    store: StoreView,
    store_insert_ids: bool,
    bucket_num_rows: u64,
    options: GarbageCollectionOptions,
    elapsed_nanos: spec_fn(int) -> u128,
)
    requires
        tables_valid(store.tables, store_insert_ids),
        registry_valid(store.registry),
        rows_registered(store),
        options.target is Everything,
        options.protect_latest == 0,
        options.time_budget_nanos >= UNBOUNDED_NANOS,
    ensures
        ({
            let end = collected(
                store,
                bucket_num_rows,
                options,
                up_after(elapsed_nanos, options.time_budget_nanos),
            );
            &&& tables_rows(end.store.tables) == 0
            &&& are_held(store.tables, end.diffs)
            &&& rows_have_cells(store.tables) ==> forall|row_id: RowId| #[trigger]
                is_held(store.tables, row_id) ==> is_reported(end.diffs, row_id)
        }),
{
    let time_is_up = up_after(elapsed_nanos, options.time_budget_nanos);
    let end = sweep_of(store, bucket_num_rows, options, time_is_up);
    law_what_goes_is_reported(store, store_insert_ids, bucket_num_rows, options, time_is_up);
    crate::progress::law_collections_add_nothing(
        store,
        store_insert_ids,
        bucket_num_rows,
        options,
        time_is_up,
    );
    lemma_sweep_of_valid(store, store_insert_ids, bucket_num_rows, options, time_is_up);
    assert forall|t: int, row_id: RowId, time: i64|
        #![trigger end.tables[t].table.has_row(row_id, time)]
        0 <= t < end.tables.len() implies !end.tables[t].table.has_row(row_id, time) by {
        if end.tables[t].table.has_row(row_id, time) {
            assert(end.tables[t].hash == store.tables[t].hash);
            assert(store.tables[t].table.has_row(row_id, time));
            assert(is_registered_at(store.registry, store.tables[t], row_id, time));
            let (k, j) = choose|k: int, j: int|
                0 <= k < store.registry.len() && store.registry[k].row_id == row_id
                    && store.registry[k].hash == store.tables[t].hash && 0 <= j
                    < store.registry[k].times.len() && (#[trigger] store.registry[k].times[j]).0@
                    == store.tables[t].table.timeline@ && store.registry[k].times[j].1.value
                    == time;
            lemma_nothing_protected(store, options, row_id.bits);
            law_everything_unprotected_goes(
                store,
                store_insert_ids,
                bucket_num_rows,
                options,
                time_is_up,
                k,
            );
            let row = store.registry[k];
            assert(gone_at(end.tables, row, row.times[j]));
            assert(is_table_of(end.tables[t], row.hash, row.times[j].0@));
        }
    }
    lemma_no_rows_anywhere(end.tables, store_insert_ids);
    let all = collected(store, bucket_num_rows, options, time_is_up);
    assert(all.diffs =~= end.diffs);
    if rows_have_cells(store.tables) {
        assert forall|row_id: RowId| #[trigger] is_held(store.tables, row_id) implies is_reported(
            all.diffs,
            row_id,
        ) by {
            let (t, time) = choose|t: int, time: i64|
                0 <= t < store.tables.len() && #[trigger] store.tables[t].table.has_row(
                    row_id,
                    time,
                );
            let table = store.tables[t].table;
            let (b, i) = choose|b: int, i: int|
                0 <= b < table.buckets.len() && 0 <= i < table.buckets[b].bucket.rows.len() && (
                #[trigger] table.buckets[b].bucket.rows[i]).row_id == row_id
                    && table.buckets[b].bucket.rows[i].time == time;
            let row = table.buckets[b].bucket.rows[i];
            assert(holds_row(store.tables[t].table, row));
            assert(table_accounted(store.tables[t].table, end.tables[t].table, end.diffs));
            assert(is_accounted(end.tables[t].table, end.diffs, row));
            if holds_row(end.tables[t].table, row) {
                let after = end.tables[t].table;
                let (b2, i2) = choose|b2: int, i2: int|
                    0 <= b2 < after.buckets.len() && 0 <= i2
                        < after.buckets[b2].bucket.rows.len()
                        && #[trigger] after.buckets[b2].bucket.rows[i2] == row;
                assert(after.buckets[b2].bucket.rows[i2].row_id == row_id);
                assert(after.has_row(row_id, time));
                assert(false);
            }
        }
    }
}

pub proof fn lemma_sweep_of_valid(
    store: StoreView,
    store_insert_ids: bool,
    bucket_num_rows: u64,
    options: GarbageCollectionOptions,
    time_is_up: spec_fn(int) -> bool,
)
    requires
        tables_valid(store.tables, store_insert_ids),
        registry_valid(store.registry),
    ensures
        tables_valid(
            sweep_of(store, bucket_num_rows, options, time_is_up).tables,
            store_insert_ids,
        ),
{
    lemma_sweep_accounted(
        SweepRules {
            enable_batching: options.enable_batching,
            batch_size: batch_size_of(bucket_num_rows),
            protected: protected_by(store, options),
            time_is_up,
        },
        store_insert_ids,
        Sweep {
            tables: store.tables,
            heap_size: store.heap_size,
            budget: budget_of(options.target),
            diffs: Seq::empty(),
        },
        store.registry,
        Seq::empty(),
        false,
        0,
    );
}

// --- All rows are registered.

proof fn lemma_inserted_from(rows: Seq<BucketRow>, row: BucketRow, k: int) -> (j: int)
    requires
        0 <= k < insert_sorted(rows, row).len(),
    ensures
        insert_sorted(rows, row)[k] == row || 0 <= j < rows.len() && insert_sorted(rows, row)[k]
            == rows[j],
    decreases rows.len(),
{
    if rows.len() == 0 || row_before(rows.last(), row) {
        k
    } else {
        let init = rows.drop_last();
        if k < insert_sorted(init, row).len() {
            lemma_inserted_from(init, row, k)
        } else {
            init.len() as int
        }
    }
}

/// The rows of a table with one more row are those that it had and the new one.
proof fn lemma_table_with_rows(
    table: TableView,
    bucket_num_rows: u64,
    time: i64,
    row_id: RowId,
    insert_id: u64,
    cells: Seq<DataCell>,
    id: RowId,
    at: i64,
)
    requires
        table.valid(),
        time >= TIME_MIN,
        table_with(table, bucket_num_rows, time, row_id, insert_id, cells).has_row(id, at),
    ensures
        table.has_row(id, at) || id == row_id && at == time,
{
    let after = table_with(table, bucket_num_rows, time, row_id, insert_id, cells);
    crate::table::lemma_table_bucket_of(table, time);
    let k = bucket_of(table.buckets, time);
    let (b, i) = choose|b: int, i: int|
        0 <= b < after.buckets.len() && 0 <= i < after.buckets[b].bucket.rows.len() && (
        #[trigger] after.buckets[b].bucket.rows[i]).row_id == id
            && after.buckets[b].bucket.rows[i].time == at;
    let found = after.buckets[b].bucket.rows[i];
    let opens = crate::table::opens_bucket(table, bucket_num_rows, time);
    if opens && b < table.buckets.len() || !opens && b != k {
        assert(table.buckets[b].bucket.rows[i] == found);
    } else {
        let bucket = if opens {
            empty_bucket(table.store_insert_ids)
        } else {
            table.buckets[k].bucket
        };
        assert(after.buckets[b].bucket == bucket_with(bucket, time, row_id, insert_id, cells));
        let columns = with_columns(bucket.columns, cells);
        let wide = widened(bucket.rows, (columns.len() - bucket.columns.len()) as nat);
        let new = new_bucket_row(
            columns,
            time,
            row_id,
            if bucket.store_insert_ids {
                Some(insert_id)
            } else {
                None
            },
            cells,
        );
        let j = lemma_inserted_from(wide, new, i);
        if found != new {
            assert(wide[j].row_id == bucket.rows[j].row_id);
            assert(!opens);
            assert(table.buckets[k].bucket.rows[j].row_id == id);
        }
    }
}

/// Whether a table of the same entity and timeline had a row before.
pub open spec fn had_row(
    tables: Seq<TableSlot>,
    slot: TableSlot,
    row_id: RowId,
    time: i64,
) -> bool {
    exists|t: int|
        0 <= t < tables.len() && (#[trigger] tables[t]).hash == slot.hash
            && tables[t].table.timeline@ == slot.table.timeline@ && tables[t].table.has_row(
            row_id,
            time,
        )
}

/// Whether a row was logged to an entity at a time.
pub open spec fn was_logged(
    row: RowView,
    times: Seq<(Timeline, TimeInt)>,
    slot: TableSlot,
    row_id: RowId,
    time: i64,
) -> bool {
    &&& row_id == row.row_id
    &&& slot.hash == entity_path_hash(row.entity_path)
    &&& exists|j: int|
        0 <= j < times.len() && (#[trigger] times[j]).0@ == slot.table.timeline@
            && times[j].1.value == time
}

proof fn lemma_tables_with_rows(
    tables: Seq<TableSlot>,
    config: DataStoreConfig,
    times: Seq<(Timeline, TimeInt)>,
    row: RowView,
    insert_id: u64,
    t: int,
    id: RowId,
    at: i64,
)
    requires
        tables_valid(tables, config.store_insert_ids),
        timelines_distinct(times),
        times_temporal(times),
        forall|j: int|
            0 <= j < times.len() ==> !(#[trigger] table_or_empty(
                tables,
                entity_path_hash(row.entity_path),
                times[j].0,
                row.entity_path,
                config.store_insert_ids,
            )).has_row_id(row.row_id),
        0 <= t < tables_with(tables, config, times, row, insert_id).len(),
        tables_with(tables, config, times, row, insert_id)[t].table.has_row(id, at),
    ensures
        ({
            let slot = tables_with(tables, config, times, row, insert_id)[t];
            had_row(tables, slot, id, at) || was_logged(row, times, slot, id, at)
        }),
    decreases times.len(),
{
    let all = tables_with(tables, config, times, row, insert_id);
    let slot = all[t];
    if times.len() == 0 {
        assert(tables[t].table.has_row(id, at));
    } else {
        let init = times.drop_last();
        let n = init.len() as int;
        assert forall|j: int| 0 <= j < init.len() implies (#[trigger] init[j]).1.value
            >= TIME_MIN by {
            assert(times[j].1.value >= TIME_MIN);
        }
        assert forall|i: int, j: int|
            #![trigger init[i], init[j]]
            0 <= i < j < init.len() implies init[i].0@ != init[j].0@ by {
            assert(times[i].0@ != times[j].0@);
        }
        assert forall|j: int| 0 <= j < init.len() implies !(#[trigger] table_or_empty(
            tables,
            entity_path_hash(row.entity_path),
            init[j].0,
            row.entity_path,
            config.store_insert_ids,
        )).has_row_id(row.row_id) by {
            assert(init[j] == times[j]);
            assert(!table_or_empty(
                tables,
                entity_path_hash(row.entity_path),
                times[j].0,
                row.entity_path,
                config.store_insert_ids,
            ).has_row_id(row.row_id));
        }
        let before = tables_with(tables, config, init, row, insert_id);
        crate::store::lemma_tables_with(tables, config, init, row, insert_id);
        let (timeline, time) = times[n];
        assert(time.value >= TIME_MIN);
        let hash = entity_path_hash(row.entity_path);
        let old = table_or_empty(
            before,
            hash,
            timeline,
            row.entity_path,
            config.store_insert_ids,
        );
        let index = slot_index(before, hash, timeline@);
        let place = match index {
            Some(i) => i,
            None => crate::store::slots_up_to(before, hash),
        };
        crate::store::lemma_slots_up_to(before, config.store_insert_ids, hash);
        if index is Some {
            assert(0 <= place < before.len() && is_table_of(before[place], hash, timeline@));
            crate::gc::lemma_table_of_valid(before, config.store_insert_ids, place);
        }
        if t == place {
            if index is None {
                crate::store::lemma_empty_table_valid(
                    timeline,
                    row.entity_path,
                    config.store_insert_ids,
                );
            }
            lemma_table_with_rows(
                old,
                config.indexed_bucket_num_rows,
                time.value,
                row.row_id,
                insert_id,
                row.cells,
                id,
                at,
            );
            if id == row.row_id && at == time.value {
                assert(times[n].0@ == slot.table.timeline@);
                assert(was_logged(row, times, slot, id, at));
            } else {
                assert(old.has_row(id, at));
                if index is None {
                    assert(false) by {
                        let (b, i) = choose|b: int, i: int|
                            0 <= b < old.buckets.len() && 0 <= i
                                < old.buckets[b].bucket.rows.len() && (
                            #[trigger] old.buckets[b].bucket.rows[i]).row_id == id
                                && old.buckets[b].bucket.rows[i].time == at;
                    }
                }
                lemma_tables_with_rows(tables, config, init, row, insert_id, place, id, at);
                lemma_still_logged(row, times, before[place], slot, id, at);
                lemma_still_had(tables, before[place], slot, id, at);
            }
        } else {
            let o = if index is Some || t < place {
                t
            } else {
                t - 1
            };
            assert(slot == before[o]);
            lemma_tables_with_rows(tables, config, init, row, insert_id, o, id, at);
            lemma_still_logged(row, times, before[o], slot, id, at);
        }
    }
}

proof fn lemma_still_had(
    tables: Seq<TableSlot>,
    a: TableSlot,
    b: TableSlot,
    id: RowId,
    at: i64,
)
    requires
        a.hash == b.hash,
        a.table.timeline@ == b.table.timeline@,
    ensures
        had_row(tables, a, id, at) ==> had_row(tables, b, id, at),
{
}

proof fn lemma_still_logged(
    row: RowView,
    times: Seq<(Timeline, TimeInt)>,
    a: TableSlot,
    b: TableSlot,
    id: RowId,
    at: i64,
)
    requires
        times.len() > 0,
        a.hash == b.hash,
        a.table.timeline@ == b.table.timeline@,
    ensures
        was_logged(row, times.drop_last(), a, id, at) ==> was_logged(row, times, b, id, at),
{
    let init = times.drop_last();
    if was_logged(row, init, a, id, at) {
        let j = choose|j: int|
            0 <= j < init.len() && (#[trigger] init[j]).0@ == a.table.timeline@
                && init[j].1.value == at;
        assert(times[j] == init[j]);
    }
}

/// Law: adding a row leaves all rows registered.
pub proof fn law_added_rows_are_registered(
    store: StoreView,
    config: DataStoreConfig,
    row: RowView,
)
    requires
        tables_valid(store.tables, config.store_insert_ids),
        rows_registered(store),
        timelines_distinct(row.times),
        times_temporal(row.times),
        !in_use(store, config, row),
    ensures
        rows_registered(store_with(store, config, row)),
{
    let after = store_with(store, config, row);
    let at = metas_below(store.registry, row.row_id);
    crate::ingest::lemma_metas_below_bounds(store.registry, row.row_id);
    let meta = RowMeta {
        row_id: row.row_id,
        times: row.times,
        hash: entity_path_hash(row.entity_path),
    };
    assert(after.registry[at] == meta);
    assert forall|t: int, id: RowId, time: i64|
        #![trigger after.tables[t].table.has_row(id, time)]
        0 <= t < after.tables.len() && after.tables[t].table.has_row(
            id,
            time,
        ) implies is_registered_at(after.registry, after.tables[t], id, time) by {
        lemma_tables_with_rows(
            store.tables,
            config,
            row.times,
            row,
            store.insert_id,
            t,
            id,
            time,
        );
        let slot = after.tables[t];
        if had_row(store.tables, slot, id, time) {
            let o = choose|o: int|
                0 <= o < store.tables.len() && (#[trigger] store.tables[o]).hash == slot.hash
                    && store.tables[o].table.timeline@ == slot.table.timeline@
                    && store.tables[o].table.has_row(id, time);
            assert(is_registered_at(store.registry, store.tables[o], id, time));
            let (k, j) = choose|k: int, j: int|
                0 <= k < store.registry.len() && store.registry[k].row_id == id
                    && store.registry[k].hash == store.tables[o].hash && 0 <= j
                    < store.registry[k].times.len() && (#[trigger] store.registry[k].times[j]).0@
                    == store.tables[o].table.timeline@ && store.registry[k].times[j].1.value
                    == time;
            let k2 = if k < at {
                k
            } else {
                k + 1
            };
            assert(after.registry[k2] == store.registry[k]);
            assert(after.registry[k2].times[j].0@ == slot.table.timeline@);
        } else {
            let j = choose|j: int|
                0 <= j < row.times.len() && (#[trigger] row.times[j]).0@ == slot.table.timeline@
                    && row.times[j].1.value == time;
            assert(after.registry[at].times[j].0@ == slot.table.timeline@);
        }
    }
}

/// Rows that nothing is reported of stay on the register.
proof fn lemma_unreported_stay(registry: Seq<RowMeta>, diffs: Seq<DiffView>, row: RowMeta)
    requires
        registry.contains(row),
        !is_reported(diffs, row.row_id),
    ensures
        without_rows(registry, diffs).contains(row),
    decreases diffs.len(),
{
    if diffs.len() > 0 {
        let init = diffs.drop_last();
        let last = diffs[diffs.len() - 1];
        assert(last.row_id != row.row_id);
        assert(!is_reported(init, row.row_id)) by {
            if is_reported(init, row.row_id) {
                let d = choose|d: int|
                    0 <= d < init.len() && (#[trigger] init[d]).row_id == row.row_id;
                assert(diffs[d].row_id == row.row_id);
            }
        }
        lemma_unreported_stay(registry, init, row);
        let rest = without_rows(registry, init);
        let out = without_rows(registry, diffs);
        let at = metas_below(rest, last.row_id);
        crate::ingest::lemma_metas_below_bounds(rest, last.row_id);
        let k = rest.index_of(row);
        assert(rest[k] == row);
        if out.len() < rest.len() && k > at {
            assert(out[k - 1] == row);
        } else {
            assert(out[k] == row);
        }
    }
}

/// Row by row, what a sweep reports is no longer in any table.
proof fn lemma_swept_rows_are_not_held(
    store: StoreView,
    store_insert_ids: bool,
    bucket_num_rows: u64,
    options: GarbageCollectionOptions,
    time_is_up: spec_fn(int) -> bool,
    t: int,
    id: RowId,
    time: i64,
)
    requires
        tables_valid(store.tables, store_insert_ids),
        registry_valid(store.registry),
        rows_registered(store),
        !options.enable_batching,
        0 <= t < sweep_of(store, bucket_num_rows, options, time_is_up).tables.len(),
        sweep_of(store, bucket_num_rows, options, time_is_up).tables[t].table.has_row(id, time),
    ensures
        !is_reported(sweep_of(store, bucket_num_rows, options, time_is_up).diffs, id),
{
    let end = sweep_of(store, bucket_num_rows, options, time_is_up);
    let n = crate::progress::lemma_sweep_of(
        store,
        store_insert_ids,
        bucket_num_rows,
        options,
        time_is_up,
    );
    assert(end.tables[t].hash == store.tables[t].hash);
    assert(store.tables[t].table.has_row(id, time));
    assert(is_registered_at(store.registry, store.tables[t], id, time));
    let (k, j) = choose|k: int, j: int|
        0 <= k < store.registry.len() && store.registry[k].row_id == id
            && store.registry[k].hash == store.tables[t].hash && 0 <= j
            < store.registry[k].times.len() && (#[trigger] store.registry[k].times[j]).0@
            == store.tables[t].table.timeline@ && store.registry[k].times[j].1.value == time;
    let row = store.registry[k];
    if is_reported(end.diffs, id) {
        let d = choose|d: int| 0 <= d < end.diffs.len() && (#[trigger] end.diffs[d]).row_id == id;
        assert(crate::progress::is_unprotected_id_of(
            store.registry,
            n,
            end.diffs[d].row_id,
            protected_by(store, options),
        ));
        let i = choose|i: int|
            0 <= i < n && i < store.registry.len() && (#[trigger] store.registry[i]).row_id == id;
        if i < k {
            assert(store.registry[i].row_id.bits < store.registry[k].row_id.bits);
        } else if k < i {
            assert(store.registry[k].row_id.bits < store.registry[i].row_id.bits);
        }
        assert(gone(end.tables, store.registry[i]));
        assert(gone_at(end.tables, row, row.times[j]));
        assert(is_table_of(end.tables[t], row.hash, row.times[j].0@));
        assert(!end.tables[t].table.has_row(id, time));
    }
}

proof fn lemma_put_purged_held(tables: Seq<TableSlot>, diffs: Seq<DiffView>, rows: Seq<DiffView>)
    requires
        are_held(tables, diffs),
        are_held(tables, rows),
    ensures
        are_held(tables, put_all_purged(diffs, rows)),
    decreases rows.len(),
{
    if rows.len() > 0 {
        let init = rows.drop_last();
        let last = rows[rows.len() - 1];
        assert forall|d: int| 0 <= d < init.len() implies is_held(
            tables,
            (#[trigger] init[d]).row_id,
        ) by {
            assert(is_held(tables, rows[d].row_id));
        }
        lemma_put_purged_held(tables, diffs, init);
        let st = put_all_purged(diffs, init);
        let end = put_all_purged(diffs, rows);
        let at = crate::protect::diffs_below(st, last.row_id);
        crate::protect::lemma_diffs_below_bounds(st, last.row_id);
        assert(is_held(tables, last.row_id));
        assert forall|d: int| 0 <= d < end.len() implies is_held(
            tables,
            (#[trigger] end[d]).row_id,
        ) by {
            if at < st.len() && st[at].row_id == last.row_id || d < at {
                assert(is_held(tables, st[d].row_id));
            } else if d > at {
                assert(is_held(tables, st[d - 1].row_id));
            }
        }
    }
}

/// Purging reports nothing but rows that were in the tables.
proof fn lemma_purged_are_held(tables: Seq<TableSlot>)
    ensures
        are_held(tables, purge_spec(tables).diffs),
    decreases tables.len(),
{
    if tables.len() > 0 {
        let init = tables.drop_last();
        let n = init.len() as int;
        let rest = purge_spec(init).diffs;
        lemma_purged_are_held(init);
        assert forall|d: int| 0 <= d < rest.len() implies is_held(
            tables,
            (#[trigger] rest[d]).row_id,
        ) by {
            assert(is_held(init, rest[d].row_id));
            let (t, time) = choose|t: int, time: i64|
                0 <= t < init.len() && #[trigger] init[t].table.has_row(rest[d].row_id, time);
            assert(tables[t].table.has_row(rest[d].row_id, time));
        }
        let table = tables[n].table;
        let rows = bucket_diffs(table.buckets, table.timeline, table.entity_path);
        assert forall|d: int| 0 <= d < rows.len() implies is_held(
            tables,
            (#[trigger] rows[d]).row_id,
        ) by {
            let (b, i) = lemma_bucket_diffs_held(
                table.buckets,
                table.timeline,
                table.entity_path,
                d,
            );
            let row = table.buckets[b].bucket.rows[i];
            assert(tables[n].table.has_row(row.row_id, row.time));
        }
        lemma_put_purged_held(tables, rest, rows);
    }
}

/// Whether no two reports are of the same row.
pub open spec fn reports_differ(diffs: Seq<DiffView>) -> bool {
    forall|i: int, j: int|
        #![trigger diffs[i], diffs[j]]
        0 <= i < j < diffs.len() ==> diffs[i].row_id != diffs[j].row_id
}

/// Law: row by row, a collection reports each row that it removes once, those of tables without data
/// that it purges as well.
pub proof fn law_rows_are_reported_once(
    store: StoreView,
    store_insert_ids: bool,
    bucket_num_rows: u64,
    options: GarbageCollectionOptions,
    time_is_up: spec_fn(int) -> bool,
)
    requires
        tables_valid(store.tables, store_insert_ids),
        registry_valid(store.registry),
        rows_registered(store),
        !options.enable_batching,
    ensures
        reports_differ(collected(store, bucket_num_rows, options, time_is_up).diffs),
{
    let end = sweep_of(store, bucket_num_rows, options, time_is_up);
    let purge = purge_spec(end.tables);
    let all = collected(store, bucket_num_rows, options, time_is_up).diffs;
    law_rows_are_dropped_in_order(store, store_insert_ids, bucket_num_rows, options, time_is_up);
    crate::progress::law_purging_reports_in_order(end.tables);
    lemma_purged_are_held(end.tables);
    assert forall|i: int, j: int|
        #![trigger all[i], all[j]]
        0 <= i < j < all.len() implies all[i].row_id != all[j].row_id by {
        let n = end.diffs.len();
        if j < n {
            assert(end.diffs[i].row_id.bits < end.diffs[j].row_id.bits);
        } else if i >= n {
            assert(purge.diffs[i - n].row_id.bits < purge.diffs[j - n].row_id.bits);
        } else {
            let id = purge.diffs[j - n].row_id;
            assert(is_held(end.tables, id));
            let (t, time) = choose|t: int, time: i64|
                0 <= t < end.tables.len() && #[trigger] end.tables[t].table.has_row(id, time);
            lemma_swept_rows_are_not_held(
                store,
                store_insert_ids,
                bucket_num_rows,
                options,
                time_is_up,
                t,
                id,
                time,
            );
            assert(end.diffs[i].row_id != id);
        }
    }
}

/// Law: row by row, a collection leaves all rows registered.
pub proof fn law_remaining_rows_are_registered(
    store: StoreView,
    store_insert_ids: bool,
    bucket_num_rows: u64,
    options: GarbageCollectionOptions,
    time_is_up: spec_fn(int) -> bool,
)
    requires
        tables_valid(store.tables, store_insert_ids),
        registry_valid(store.registry),
        rows_registered(store),
        !options.enable_batching,
    ensures
        rows_registered(collected(store, bucket_num_rows, options, time_is_up).store),
{
    let end = sweep_of(store, bucket_num_rows, options, time_is_up);
    let after = collected(store, bucket_num_rows, options, time_is_up).store;
    crate::progress::lemma_sweep_of(
        store,
        store_insert_ids,
        bucket_num_rows,
        options,
        time_is_up,
    );
    crate::survival::lemma_purge_tables(end.tables);
    assert forall|t: int, id: RowId, time: i64|
        #![trigger after.tables[t].table.has_row(id, time)]
        0 <= t < after.tables.len() && after.tables[t].table.has_row(
            id,
            time,
        ) implies is_registered_at(after.registry, after.tables[t], id, time) by {
        let slot = after.tables[t];
        assert(end.tables.contains(slot)) by {
            if !options.purge_empty_tables {
                assert(end.tables[t] == slot);
            }
        }
        let o = end.tables.index_of(slot);
        assert(end.tables[o].hash == store.tables[o].hash);
        assert(store.tables[o].table.has_row(id, time));
        assert(is_registered_at(store.registry, store.tables[o], id, time));
        let (k, j) = choose|k: int, j: int|
            0 <= k < store.registry.len() && store.registry[k].row_id == id
                && store.registry[k].hash == store.tables[o].hash && 0 <= j
                < store.registry[k].times.len() && (#[trigger] store.registry[k].times[j]).0@
                == store.tables[o].table.timeline@ && store.registry[k].times[j].1.value == time;
        let row = store.registry[k];
        lemma_swept_rows_are_not_held(
            store,
            store_insert_ids,
            bucket_num_rows,
            options,
            time_is_up,
            o,
            id,
            time,
        );
        lemma_unreported_stay(store.registry, end.diffs, row);
        let k2 = after.registry.index_of(row);
        assert(after.registry[k2] == row);
        assert(after.registry[k2].times[j].0@ == slot.table.timeline@);
    }
}

} // verus!

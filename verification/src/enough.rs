//! That a collection stops once it has dropped enough.
use crate::bucket::{bucket_without, row_index};
use crate::details::{lemma_drop_row_at_times_told, loses};
use crate::gc::{
    batch_size_of, budget_of, diffs_meta_size, drop_row_at_times, drop_rows, rows_temporal,
    spent, sweep_batch, sweep_rows, GarbageCollectionOptions, GarbageCollectionTarget, Sweep,
    SweepRules,
};
use crate::names::{RowId, TimeInt, Timeline, TIME_MIN};
use crate::progress::{
    lemma_diffs_meta_size_concat, lemma_drop_rows_size, lemma_sweep_batch_size, protected_by,
    sweep_of,
};
use crate::reports::holds_row;
use crate::row::times_temporal;
use crate::sorting::BucketRow;
use crate::stats::tables_size;
use crate::store::{
    is_table_of, registry_valid, slot_index, tables_valid, RowMeta, StoreView, TableSlot,
};
use crate::table::{bucket_of, drop_row_spec, TableView};
use vstd::prelude::*;

verus! {

/// Whether every row of some tables is in others.
pub open spec fn rows_within(some: Seq<TableSlot>, all: Seq<TableSlot>) -> bool {
    &&& some.len() == all.len()
    &&& forall|t: int, row: BucketRow| #[trigger]
        holds_row(some[t].table, row) && 0 <= t < some.len() ==> holds_row(all[t].table, row)
}

/// Whether nothing is missing from tables but what they had of one row.
pub open spec fn lacks_only(all: Seq<TableSlot>, some: Seq<TableSlot>, row_id: RowId) -> bool {
    forall|t: int, row: BucketRow| #[trigger]
        holds_row(all[t].table, row) && 0 <= t < all.len() && row.row_id != row_id ==> holds_row(
            some[t].table,
            row,
        )
}

/// Whether less than some bytes had been freed when the last row was still there.
pub open spec fn stops_in_time(
    before: Seq<TableSlot>,
    after: Seq<TableSlot>,
    num_bytes: int,
) -> bool {
    exists|almost: Seq<TableSlot>, row_id: RowId|
        rows_within(almost, before) && rows_within(after, almost) && #[trigger] lacks_only(
            almost,
            after,
            row_id,
        ) && tables_size(before) - tables_size(almost) < num_bytes
}

proof fn lemma_drop_row_only(table: TableView, row_id: RowId, time: TimeInt)
    requires
        table.valid(),
        time.value >= TIME_MIN,
    ensures
        forall|row: BucketRow| #[trigger]
            holds_row(table, row) && row.row_id != row_id ==> holds_row(
                drop_row_spec(table, row_id, time).table,
                row,
            ),
{
    let after = drop_row_spec(table, row_id, time).table;
    let k = bucket_of(table.buckets, time.value);
    crate::table::lemma_table_bucket_of(table, time.value);
    let bucket = table.buckets[k].bucket;
    if let Some(at) = row_index(bucket.rows, row_id, time.value) {
        assert(0 <= at < bucket.rows.len() && bucket.rows[at].row_id == row_id);
        let left = bucket_without(bucket, at);
        assert forall|row: BucketRow| #[trigger]
            holds_row(table, row) && row.row_id != row_id implies holds_row(after, row) by {
            let (b, i) = choose|b: int, i: int|
                0 <= b < table.buckets.len() && 0 <= i < table.buckets[b].bucket.rows.len()
                    && #[trigger] table.buckets[b].bucket.rows[i] == row;
            if table.buckets.len() > 1 && left.rows.len() == 0 {
                let b2 = if b < k {
                    b
                } else {
                    b - 1
                };
                assert(b != k);
                assert(table.buckets.remove(k)[b2] == table.buckets[b]);
                assert(after.buckets[b2].bucket.rows[i] == row);
            } else if b == k {
                let i2 = if i < at {
                    i
                } else {
                    i - 1
                };
                assert(after.buckets[b].bucket.rows[i2] == row);
            } else {
                assert(after.buckets[b].bucket.rows[i] == row);
            }
        }
    }
}

proof fn lemma_drop_row_at_times_only(
    tables: Seq<TableSlot>,
    store_insert_ids: bool,
    hash: u64,
    row_id: RowId,
    times: Seq<(Timeline, TimeInt)>,
)
    requires
        tables_valid(tables, store_insert_ids),
        times_temporal(times),
    ensures
        lacks_only(tables, drop_row_at_times(tables, hash, row_id, times).tables, row_id),
        drop_row_at_times(tables, hash, row_id, times).tables.len() == tables.len(),
    decreases times.len(),
{
    if times.len() > 0 {
        let init = times.drop_last();
        assert(times_temporal(init)) by {
            assert forall|i: int| 0 <= i < init.len() implies (#[trigger] init[i]).1.value
                >= TIME_MIN by {
                assert(times[i].1.value >= TIME_MIN);
            }
        }
        assert(times[times.len() - 1].1.value >= TIME_MIN);
        lemma_drop_row_at_times_only(tables, store_insert_ids, hash, row_id, init);
        crate::gc::lemma_drop_row_at_times_valid(tables, store_insert_ids, hash, row_id, init);
        let st = drop_row_at_times(tables, hash, row_id, init);
        let end = drop_row_at_times(tables, hash, row_id, times);
        let (timeline, time) = times.last();
        if let Some(i) = slot_index(st.tables, hash, timeline@) {
            assert(0 <= i < st.tables.len() && is_table_of(st.tables[i], hash, timeline@));
            crate::gc::lemma_table_of_valid(st.tables, store_insert_ids, i);
            lemma_drop_row_only(st.tables[i].table, row_id, time);
            assert forall|t: int, row: BucketRow| #[trigger]
                holds_row(tables[t].table, row) && 0 <= t < tables.len() && row.row_id
                    != row_id implies holds_row(end.tables[t].table, row) by {
                assert(holds_row(st.tables[t].table, row));
                if t != i {
                    assert(end.tables[t] == st.tables[t]);
                }
            }
        }
    }
}

proof fn lemma_rows_within_trans(a: Seq<TableSlot>, b: Seq<TableSlot>, c: Seq<TableSlot>)
    requires
        rows_within(a, b),
        rows_within(b, c),
    ensures
        rows_within(a, c),
{
    assert forall|t: int, row: BucketRow| #[trigger]
        holds_row(a[t].table, row) && 0 <= t < a.len() implies holds_row(c[t].table, row) by {
        assert(holds_row(b[t].table, row));
    }
}

proof fn lemma_one_row_stops(
    tables: Seq<TableSlot>,
    store_insert_ids: bool,
    row: RowMeta,
)
    requires
        tables_valid(tables, store_insert_ids),
        times_temporal(row.times),
    ensures
        ({
            let after = drop_row_at_times(tables, row.hash, row.row_id, row.times).tables;
            &&& rows_within(after, tables)
            &&& lacks_only(tables, after, row.row_id)
        }),
{
    lemma_drop_row_at_times_told(tables, store_insert_ids, row.hash, row.row_id, row.times);
    lemma_drop_row_at_times_only(tables, store_insert_ids, row.hash, row.row_id, row.times);
    let dropped = drop_row_at_times(tables, row.hash, row.row_id, row.times);
    assert forall|t: int, r: BucketRow| #[trigger]
        holds_row(dropped.tables[t].table, r) && 0 <= t < dropped.tables.len() implies holds_row(
        tables[t].table,
        r,
    ) by {
        assert(loses(tables[t], dropped.tables[t], crate::gc::opt_seq(dropped.diff)));
    }
}

proof fn lemma_drop_rows_stops(
    tables: Seq<TableSlot>,
    store_insert_ids: bool,
    num_bytes: u128,
    rows: Seq<RowMeta>,
)
    requires
        tables_valid(tables, store_insert_ids),
        rows_temporal(rows),
        num_bytes > 0,
    ensures
        ({
            let end = drop_rows(tables, Some(num_bytes), rows);
            &&& end.tables == tables || stops_in_time(tables, end.tables, num_bytes as int)
            &&& rows_within(end.tables, tables)
        }),
    decreases rows.len(),
{
    if rows.len() > 0 {
        let init = rows.drop_last();
        assert(rows_temporal(init)) by {
            assert forall|i: int| 0 <= i < init.len() implies times_temporal(
                (#[trigger] init[i]).times,
            ) by {
                assert(times_temporal(rows[i].times));
            }
        }
        let budget = Some(num_bytes);
        lemma_drop_rows_stops(tables, store_insert_ids, num_bytes, init);
        lemma_drop_rows_size(tables, store_insert_ids, budget, init);
        crate::gc::lemma_drop_rows_valid(tables, store_insert_ids, budget, init);
        let st = drop_rows(tables, budget, init);
        let end = drop_rows(tables, budget, rows);
        let row = rows[rows.len() - 1];
        assert(times_temporal(row.times));
        if !(rows.len() > 1 && spent(st.budget)) {
            lemma_one_row_stops(st.tables, store_insert_ids, row);
            lemma_rows_within_trans(end.tables, st.tables, tables);
            assert(lacks_only(st.tables, end.tables, row.row_id));
            assert(stops_in_time(tables, end.tables, num_bytes as int));
        }
    }
}

/// What holds of two steps holds of both together.
proof fn lemma_stops_trans(
    a: Seq<TableSlot>,
    b: Seq<TableSlot>,
    c: Seq<TableSlot>,
    num_bytes: int,
    freed: int,
)
    requires
        rows_within(b, a),
        stops_in_time(b, c, num_bytes - freed),
        tables_size(a) - tables_size(b) <= freed,
    ensures
        stops_in_time(a, c, num_bytes),
{
    let (almost, row_id) = choose|almost: Seq<TableSlot>, row_id: RowId|
        rows_within(almost, b) && rows_within(c, almost) && #[trigger] lacks_only(
            almost,
            c,
            row_id,
        ) && tables_size(b) - tables_size(almost) < num_bytes - freed;
    lemma_rows_within_trans(almost, b, a);
    assert(lacks_only(almost, c, row_id));
}

/// Whether a collection that has some bytes left to drop ends as it should.
pub open spec fn ends_in_time(before: Sweep, after: Sweep) -> bool {
    &&& rows_within(after.tables, before.tables)
    &&& match before.budget {
        Some(num_bytes) => after.tables == before.tables || (num_bytes > 0 && stops_in_time(
            before.tables,
            after.tables,
            num_bytes as int,
        )),
        None => true,
    }
}

proof fn lemma_batch_stops(
    rules: SweepRules,
    store_insert_ids: bool,
    at: Sweep,
    batch: Seq<RowMeta>,
    batch_is_protected: bool,
)
    requires
        tables_valid(at.tables, store_insert_ids),
        rows_temporal(batch),
        !rules.enable_batching,
        at.budget is Some,
    ensures
        ends_in_time(at, sweep_batch(rules, at, batch, batch_is_protected)),
{
    let num_bytes = at.budget->0;
    if !spent(at.budget) {
        assert(num_bytes > 0);
        lemma_drop_rows_stops(at.tables, store_insert_ids, num_bytes, batch);
    }
}

proof fn lemma_sweep_stops(
    rules: SweepRules,
    store_insert_ids: bool,
    at: Sweep,
    rows: Seq<RowMeta>,
    batch: Seq<RowMeta>,
    batch_is_protected: bool,
    num_batches: int,
)
    requires
        tables_valid(at.tables, store_insert_ids),
        rows_temporal(rows),
        rows_temporal(batch),
        !rules.enable_batching,
        at.budget is Some,
    ensures
        ends_in_time(at, sweep_rows(rules, at, rows, batch, batch_is_protected, num_batches)),
    decreases rows.len(),
{
    if rows.len() == 0 {
        lemma_batch_stops(rules, store_insert_ids, at, batch, batch_is_protected);
    } else {
        let row = rows[0];
        let rest = rows.skip(1);
        assert(times_temporal(row.times));
        assert(rows_temporal(rest)) by {
            assert forall|i: int| 0 <= i < rest.len() implies times_temporal(
                (#[trigger] rest[i]).times,
            ) by {
                assert(times_temporal(rows[i + 1].times));
            }
        }
        let full = batch.push(row);
        assert(rows_temporal(full)) by {
            assert forall|i: int| 0 <= i < full.len() implies times_temporal(
                (#[trigger] full[i]).times,
            ) by {
                if i < batch.len() {
                    assert(times_temporal(batch[i].times));
                }
            }
        }
        if rules.protected.contains(row.row_id.bits) {
            lemma_sweep_stops(rules, store_insert_ids, at, rest, batch, true, num_batches);
        } else if full.len() < rules.batch_size {
            lemma_sweep_stops(
                rules,
                store_insert_ids,
                at,
                rest,
                full,
                batch_is_protected,
                num_batches,
            );
        } else {
            let then = sweep_batch(rules, at, full, batch_is_protected);
            let end = sweep_rows(rules, at, rows, batch, batch_is_protected, num_batches);
            lemma_batch_stops(rules, store_insert_ids, at, full, batch_is_protected);
            lemma_sweep_batch_size(rules, store_insert_ids, at, full, batch_is_protected);
            crate::gc::lemma_sweep_batch_valid(
                rules,
                store_insert_ids,
                at,
                full,
                batch_is_protected,
            );
            let freed = tables_size(at.tables) - tables_size(then.tables) + diffs_meta_size(
                then.diffs,
            ) - diffs_meta_size(at.diffs);
            let more = then.diffs.skip(at.diffs.len() as int);
            assert(then.diffs =~= at.diffs + more);
            lemma_diffs_meta_size_concat(at.diffs, more);
            crate::gc::lemma_diffs_meta_size_nonneg(more);
            if (rules.time_is_up)(num_batches) || spent(then.budget) {
                lemma_batch_stops(rules, store_insert_ids, then, full, batch_is_protected);
            } else {
                lemma_sweep_stops(
                    rules,
                    store_insert_ids,
                    then,
                    rest,
                    Seq::empty(),
                    false,
                    num_batches + 1,
                );
            }
            lemma_rows_within_trans(end.tables, then.tables, at.tables);
            if end.tables != then.tables {
                lemma_stops_trans(
                    at.tables,
                    then.tables,
                    end.tables,
                    at.budget->0 as int,
                    freed,
                );
            }
        }
    }
}

/// Law: row by row, a collection does not go on once it has freed as many bytes in tables as it
/// was asked to. Before the last row went, it had freed fewer. If it was asked to free nothing, it
/// changes no table.
pub proof fn law_no_more_goes_than_asked_for(
    store: StoreView,
    store_insert_ids: bool,
    bucket_num_rows: u64,
    options: GarbageCollectionOptions,
    time_is_up: spec_fn(int) -> bool,
    num_bytes: u128,
)
    requires
        tables_valid(store.tables, store_insert_ids),
        registry_valid(store.registry),
        !options.enable_batching,
        options.target == GarbageCollectionTarget::DropAtLeastBytes(num_bytes),
    ensures
        ({
            let end = sweep_of(store, bucket_num_rows, options, time_is_up);
            ||| end.tables == store.tables
            ||| num_bytes > 0 && stops_in_time(store.tables, end.tables, num_bytes as int)
        }),
{
    assert(rows_temporal(store.registry)) by {
        assert forall|i: int| 0 <= i < store.registry.len() implies times_temporal(
            (#[trigger] store.registry[i]).times,
        ) by {}
    }
    lemma_sweep_stops(
        SweepRules {
            enable_batching: options.enable_batching,
            batch_size: batch_size_of(bucket_num_rows),
            protected: protected_by(store, options),
            time_is_up,
        },
        store_insert_ids,
        Sweep {
            tables: store.tables,
            heap_size: store.heap_size,
            budget: budget_of(options.target),
            diffs: Seq::empty(),
        },
        store.registry,
        Seq::empty(),
        false,
        0,
    );
}

} // verus!

//! What is left of a database that was told to keep only the latest, or to free some memory.
use crate::details::{law_all_times_and_cells_are_told, loses};
use crate::entity_db::DbView;
use crate::enough::{law_no_more_goes_than_asked_for, stops_in_time};
use crate::gc::{collected, diffs_meta_size, up_after, GarbageCollectionOptions};
use crate::kept::{
    has_late_cell, is_to_be_kept, law_only_the_latest_are_left, law_protected_are_the_latest,
};
use crate::names::{RowId, TimeInt, Timeline, TIME_MAX};
use crate::progress::{
    gone, law_target_is_met, lemma_row_in_bucket_of, protected_by, sweep_of, time_ran_out,
};
use crate::protect::{purge_spec, table_has_data};
use crate::purged::lemma_has_instances;
use crate::reports::{holds_row, lemma_sweep_of_valid, rows_registered};
use crate::sorting::BucketRow;
use crate::stats::tables_size;
use crate::store::{
    latest_entry, registry_valid, tables_valid, LatestAtQuery, StoreView, TableSlot,
};
use crate::survival::{law_latest_at_the_end_of_time_is_unchanged, lemma_purge_tables};
use crate::table::TableView;
use crate::upkeep::{drops_at_least, gc_diffs, gc_step, keeps_only_latest};
use vstd::prelude::*;

verus! {

/// Whether a row has the latest cell of some component on some timeline, other than those that
/// clears are made of.
pub open spec fn is_latest(tables: Seq<TableSlot>, row_id: RowId) -> bool {
    exists|t: int, component: Seq<char>|
        {
            &&& 0 <= t < tables.len()
            &&& component != "rerun.components.ClearIsRecursive"@
            &&& component != "rerun.components.ClearIndicator"@
            &&& #[trigger] has_late_cell(tables[t].table, component, 1, row_id)
        }
}

/// Whether a row has a cell with an instance.
pub open spec fn has_instance(row: BucketRow) -> bool {
    exists|j: int|
        0 <= j < row.cells.len() && (#[trigger] row.cells[j]) is Some
            && row.cells[j]->0.num_instances > 0
}

/// Whether a table has one of the latest rows with an instance.
pub open spec fn has_latest_data(tables: Seq<TableSlot>, t: int) -> bool {
    exists|row: BucketRow| #[trigger]
        holds_row(tables[t].table, row) && is_latest(tables, row.row_id) && has_instance(row)
}

/// Whether a row is in a table of an entity and timeline.
pub open spec fn is_at(
    tables: Seq<TableSlot>,
    hash: u64,
    timeline: Timeline,
    row: BucketRow,
) -> bool {
    exists|u: int|
        0 <= u < tables.len() && #[trigger] holds_row(tables[u].table, row) && tables[u].hash == hash
            && tables[u].table.timeline@ == timeline@
}

/// A table has a row at a time once.
proof fn lemma_row_once(table: TableView, a: BucketRow, b: BucketRow)
    requires
        table.valid(),
        holds_row(table, a),
        holds_row(table, b),
        a.row_id == b.row_id,
        a.time == b.time,
    ensures
        a == b,
{
    reveal(TableView::valid);
    let (x, i) = choose|x: int, i: int|
        0 <= x < table.buckets.len() && 0 <= i < table.buckets[x].bucket.rows.len()
            && #[trigger] table.buckets[x].bucket.rows[i] == a;
    let (y, j) = choose|y: int, j: int|
        0 <= y < table.buckets.len() && 0 <= j < table.buckets[y].bucket.rows.len()
            && #[trigger] table.buckets[y].bucket.rows[j] == b;
    lemma_row_in_bucket_of(table, x, i);
    lemma_row_in_bucket_of(table, y, j);
    let rows = table.buckets[x].bucket.rows;
    assert(table.buckets[x].bucket.valid());
    if i < j {
        assert(rows[i].row_id != rows[j].row_id);
    } else if j < i {
        assert(rows[j].row_id != rows[i].row_id);
    }
}

proof fn lemma_has_row_held(table: TableView, row_id: RowId, time: i64) -> (row: BucketRow)
    requires
        table.has_row(row_id, time),
    ensures
        holds_row(table, row),
        row.row_id == row_id,
        row.time == time,
{
    let (b, i) = choose|b: int, i: int|
        0 <= b < table.buckets.len() && 0 <= i < table.buckets[b].bucket.rows.len() && (
        #[trigger] table.buckets[b].bucket.rows[i]).row_id == row_id
            && table.buckets[b].bucket.rows[i].time == time;
    table.buckets[b].bucket.rows[i]
}

proof fn lemma_held_has_row(table: TableView, row: BucketRow)
    requires
        holds_row(table, row),
    ensures
        table.has_row(row.row_id, row.time),
{
    let (b, i) = choose|b: int, i: int|
        0 <= b < table.buckets.len() && 0 <= i < table.buckets[b].bucket.rows.len()
            && #[trigger] table.buckets[b].bucket.rows[i] == row;
    assert(table.buckets[b].bucket.rows[i].row_id == row.row_id);
}

proof fn lemma_is_latest(
    tables: Seq<TableSlot>,
    options: GarbageCollectionOptions,
    row_id: RowId,
)
    requires
        keeps_only_latest(options),
    ensures
        is_to_be_kept(tables, 1, options.dont_protect@, row_id) <==> is_latest(tables, row_id),
{
    let dont_protect = options.dont_protect@;
    if is_to_be_kept(tables, 1, dont_protect, row_id) {
        let (t, component) = choose|t: int, component: Seq<char>|
            {
                &&& 0 <= t < tables.len()
                &&& forall|j: int|
                    0 <= j < dont_protect.len() ==> (#[trigger] dont_protect[j])@ != component
                &&& #[trigger] has_late_cell(tables[t].table, component, 1, row_id)
            };
        assert(dont_protect[0]@ != component);
        assert(dont_protect[1]@ != component);
        assert(has_late_cell(tables[t].table, component, 1, row_id));
    }
    if is_latest(tables, row_id) {
        let (t, component) = choose|t: int, component: Seq<char>|
            {
                &&& 0 <= t < tables.len()
                &&& component != "rerun.components.ClearIsRecursive"@
                &&& component != "rerun.components.ClearIndicator"@
                &&& #[trigger] has_late_cell(tables[t].table, component, 1, row_id)
            };
        assert forall|j: int| 0 <= j < dont_protect.len() implies (#[trigger] dont_protect[j])@
            != component by {}
        assert(has_late_cell(tables[t].table, component, 1, row_id));
    }
}

/// Which rows are left before tables without data are purged.
proof fn lemma_left_before_purging(
    store: StoreView,
    store_insert_ids: bool,
    bucket_num_rows: u64,
    options: GarbageCollectionOptions,
    time_is_up: spec_fn(int) -> bool,
    t: int,
    row: BucketRow,
)
    requires
        tables_valid(store.tables, store_insert_ids),
        registry_valid(store.registry),
        rows_registered(store),
        keeps_only_latest(options),
        !time_ran_out(time_is_up),
        0 <= t < store.tables.len(),
    ensures
        ({
            let end = sweep_of(store, bucket_num_rows, options, time_is_up);
            &&& end.tables.len() == store.tables.len()
            &&& end.tables[t].hash == store.tables[t].hash
            &&& end.tables[t].table.timeline@ == store.tables[t].table.timeline@
            &&& holds_row(end.tables[t].table, row) <==> holds_row(store.tables[t].table, row)
                && is_latest(store.tables, row.row_id)
        }),
{
    let end = sweep_of(store, bucket_num_rows, options, time_is_up);
    let unpurged = GarbageCollectionOptions { purge_empty_tables: false, ..options };
    assert(sweep_of(store, bucket_num_rows, unpurged, time_is_up) == end);
    law_only_the_latest_are_left(
        store,
        store_insert_ids,
        bucket_num_rows,
        unpurged,
        time_is_up,
        t,
        row.row_id,
        row.time,
    );
    assert(collected(store, bucket_num_rows, unpurged, time_is_up).store.tables == end.tables);
    lemma_is_latest(store.tables, options, row.row_id);
    law_all_times_and_cells_are_told(
        store,
        store_insert_ids,
        bucket_num_rows,
        options,
        time_is_up,
    );
    assert(loses(store.tables[t], end.tables[t], end.diffs));
    if holds_row(end.tables[t].table, row) {
        lemma_held_has_row(end.tables[t].table, row);
    }
    if holds_row(store.tables[t].table, row) && is_latest(store.tables, row.row_id) {
        lemma_held_has_row(store.tables[t].table, row);
        let left = lemma_has_row_held(end.tables[t].table, row.row_id, row.time);
        assert(holds_row(store.tables[t].table, left));
        crate::gc::lemma_table_of_valid(store.tables, store_insert_ids, t);
        lemma_row_once(store.tables[t].table, row, left);
    }
}

/// Law: a database that is told to drop everything but the latest rows, and has the time for it,
/// keeps exactly the rows that have the latest cell of some component on some timeline, other than
/// the components that clears are made of. It keeps them wherever it had them, except in tables in
/// which nothing of them has an instance.
pub proof fn law_everything_but_the_latest_goes(
    before: DbView,
    store_insert_ids: bool,
    bucket_num_rows: u64,
    options: GarbageCollectionOptions,
    after: DbView,
    elapsed_nanos: spec_fn(int) -> u128,
    t: int,
    row: BucketRow,
)
    requires
        keeps_only_latest(options),
        gc_step(before, bucket_num_rows, options, after, elapsed_nanos),
        tables_valid(before.store.tables, store_insert_ids),
        registry_valid(before.store.registry),
        rows_registered(before.store),
        !time_ran_out(up_after(elapsed_nanos, options.time_budget_nanos)),
        0 <= t < before.store.tables.len(),
    ensures
        is_at(
            after.store.tables,
            before.store.tables[t].hash,
            before.store.tables[t].table.timeline,
            row,
        ) <==> holds_row(before.store.tables[t].table, row) && is_latest(
            before.store.tables,
            row.row_id,
        ) && has_latest_data(before.store.tables, t),
{
    let store = before.store;
    let time_is_up = up_after(elapsed_nanos, options.time_budget_nanos);
    let end = sweep_of(store, bucket_num_rows, options, time_is_up);
    let left = end.tables;
    lemma_sweep_of_valid(store, store_insert_ids, bucket_num_rows, options, time_is_up);
    lemma_purge_tables(left);
    assert(after.store.tables == purge_spec(left).tables);
    lemma_left_before_purging(
        store,
        store_insert_ids,
        bucket_num_rows,
        options,
        time_is_up,
        t,
        row,
    );
    crate::gc::lemma_table_of_valid(left, store_insert_ids, t);
    lemma_has_instances(left[t]);
    // The table has data left if and only if one of the latest rows in it does.
    assert(table_has_data(left[t].table) <==> has_latest_data(store.tables, t)) by {
        if table_has_data(left[t].table) {
            let (r, j) = choose|r: BucketRow, j: int|
                #![trigger holds_row(left[t].table, r), r.cells[j]]
                holds_row(left[t].table, r) && 0 <= j < r.cells.len() && r.cells[j] is Some
                    && r.cells[j]->0.num_instances > 0;
            lemma_left_before_purging(
                store,
                store_insert_ids,
                bucket_num_rows,
                options,
                time_is_up,
                t,
                r,
            );
            assert(has_instance(r));
            assert(holds_row(store.tables[t].table, r));
        }
        if has_latest_data(store.tables, t) {
            let r = choose|r: BucketRow| #[trigger]
                holds_row(store.tables[t].table, r) && is_latest(store.tables, r.row_id)
                    && has_instance(r);
            lemma_left_before_purging(
                store,
                store_insert_ids,
                bucket_num_rows,
                options,
                time_is_up,
                t,
                r,
            );
            let j = choose|j: int|
                0 <= j < r.cells.len() && (#[trigger] r.cells[j]) is Some
                    && r.cells[j]->0.num_instances > 0;
            assert(holds_row(left[t].table, r));
            assert(r.cells[j] is Some);
        }
    }
    let tables = after.store.tables;
    let hash = store.tables[t].hash;
    let timeline = store.tables[t].table.timeline;
    if is_at(tables, hash, timeline, row) {
        let u = choose|u: int|
            0 <= u < tables.len() && #[trigger] holds_row(tables[u].table, row) && tables[u].hash
                == hash && tables[u].table.timeline@ == timeline@;
        assert(left.contains(tables[u]));
        let v = left.index_of(tables[u]);
        lemma_one_table(left, store_insert_ids, t, v);
    }
    if holds_row(store.tables[t].table, row) && is_latest(store.tables, row.row_id)
        && has_latest_data(store.tables, t) {
        assert(purge_spec(left).tables.contains(left[t]));
        let u = tables.index_of(left[t]);
        assert(holds_row(tables[u].table, row));
    }
}

/// An entity has one table for each timeline.
proof fn lemma_one_table(tables: Seq<TableSlot>, store_insert_ids: bool, a: int, b: int)
    requires
        tables_valid(tables, store_insert_ids),
        0 <= a < tables.len(),
        0 <= b < tables.len(),
        tables[a].hash == tables[b].hash,
        tables[a].table.timeline@ == tables[b].table.timeline@,
    ensures
        a == b,
{
    reveal(tables_valid);
    if a < b {
        assert(tables[a].hash <= tables[b].hash);
    } else if b < a {
        assert(tables[b].hash <= tables[a].hash);
    }
}

/// Law: a database that is told to free some memory finds everything that is latest at the end of
/// time as before. It frees as many bytes as it was asked to, unless time was up or nothing is left
/// but the latest rows, and it does not go on after that.
pub proof fn law_purging_frees_enough_and_keeps_the_latest(
    before: DbView,
    store_insert_ids: bool,
    bucket_num_rows: u64,
    options: GarbageCollectionOptions,
    after: DbView,
    elapsed_nanos: spec_fn(int) -> u128,
    num_bytes: u128,
    timeline: Timeline,
    hash: u64,
    component: Seq<char>,
)
    requires
        drops_at_least(options, num_bytes),
        gc_step(before, bucket_num_rows, options, after, elapsed_nanos),
        tables_valid(before.store.tables, store_insert_ids),
        registry_valid(before.store.registry),
    ensures
        ({
            let query = LatestAtQuery { timeline, at: TimeInt { value: TIME_MAX } };
            latest_entry(after.store, query, hash, component) == latest_entry(
                before.store,
                query,
                hash,
                component,
            )
        }),
        ({
            let gone_diffs = gc_diffs(before, bucket_num_rows, options, elapsed_nanos);
            ||| time_ran_out(up_after(elapsed_nanos, options.time_budget_nanos))
            ||| tables_size(before.store.tables) - tables_size(after.store.tables)
                + diffs_meta_size(gone_diffs) >= num_bytes
            ||| forall|i: int|
                0 <= i < before.store.registry.len() && !is_to_be_kept(
                    before.store.tables,
                    1,
                    Seq::empty(),
                    (#[trigger] before.store.registry[i]).row_id,
                ) ==> gone(after.store.tables, before.store.registry[i])
        }),
        after.store.tables == before.store.tables || stops_in_time(
            before.store.tables,
            after.store.tables,
            num_bytes as int,
        ),
{
    let store = before.store;
    let time_is_up = up_after(elapsed_nanos, options.time_budget_nanos);
    let end = sweep_of(store, bucket_num_rows, options, time_is_up);
    assert(after.store.tables == end.tables);
    assert(gc_diffs(before, bucket_num_rows, options, elapsed_nanos) =~= end.diffs);
    law_latest_at_the_end_of_time_is_unchanged(
        store,
        store_insert_ids,
        bucket_num_rows,
        options,
        time_is_up,
        timeline,
        hash,
        component,
    );
    law_no_more_goes_than_asked_for(
        store,
        store_insert_ids,
        bucket_num_rows,
        options,
        time_is_up,
        num_bytes,
    );
    if !time_ran_out(time_is_up) {
        law_target_is_met(
            store,
            store_insert_ids,
            bucket_num_rows,
            options,
            time_is_up,
            num_bytes,
        );
        assert(options.dont_protect@ =~= Seq::empty());
        assert forall|i: int|
            0 <= i < store.registry.len() && !is_to_be_kept(
                store.tables,
                1,
                Seq::empty(),
                (#[trigger] store.registry[i]).row_id,
            ) implies !protected_by(store, options).contains(store.registry[i].row_id.bits) by {
            law_protected_are_the_latest(
                store,
                store_insert_ids,
                options,
                store.registry[i].row_id,
            );
        }
    }
}

} // verus!

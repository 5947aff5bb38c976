//! Which tables are purged, and what is told of the rows that go with them.
use crate::bucket::present;
use crate::details::{
    lemma_bucket_diffs_are, lemma_bucket_diffs_have, lemma_lists_more, lemma_present, lists,
};
use crate::names::{RowId, TimeInt, TimeType, Timeline};
use crate::protect::{
    bucket_has_data, diffs_below, holds_instances, lemma_diffs_below_bounds, purge_spec,
    put_all_purged, put_cells, put_purged, table_has_data,
};
use crate::reports::holds_row;
use crate::row::{has_component, put_cell, DataCell, DiffView};
use crate::sorting::BucketRow;
use crate::store::{tables_valid, TableSlot};
use crate::table::{bucket_diffs, TableView};
use vstd::prelude::*;

verus! {

/// Whether some cell of some row of a table has an instance.
pub open spec fn has_instances(slot: TableSlot) -> bool {
    exists|row: BucketRow, j: int|
        #![trigger holds_row(slot.table, row), row.cells[j]]
        holds_row(slot.table, row) && 0 <= j < row.cells.len() && row.cells[j] is Some
            && row.cells[j]->0.num_instances > 0
}

pub proof fn lemma_has_instances(slot: TableSlot)
    requires
        slot.table.valid(),
    ensures
        table_has_data(slot.table) == has_instances(slot),
{
    reveal(TableView::valid);
    let table = slot.table;
    if table_has_data(table) {
        let b = choose|b: int|
            0 <= b < table.buckets.len() && bucket_has_data(#[trigger] table.buckets[b].bucket);
        let bucket = table.buckets[b].bucket;
        assert(bucket.valid());
        let (i, k) = choose|i: int, k: int|
            0 <= i < bucket.rows.len() && 0 <= k < bucket.columns.len() && holds_instances(
                #[trigger] bucket.rows[i].cells[k],
            );
        let row = table.buckets[b].bucket.rows[i];
        assert(holds_row(table, row));
        assert(row.cells[k] is Some);
    }
    if has_instances(slot) {
        let (row, j) = choose|row: BucketRow, j: int|
            #![trigger holds_row(slot.table, row), row.cells[j]]
            holds_row(slot.table, row) && 0 <= j < row.cells.len() && row.cells[j] is Some
                && row.cells[j]->0.num_instances > 0;
        let (b, i) = choose|b: int, i: int|
            0 <= b < table.buckets.len() && 0 <= i < table.buckets[b].bucket.rows.len()
                && #[trigger] table.buckets[b].bucket.rows[i] == row;
        assert(table.buckets[b].bucket.valid());
        assert(holds_instances(table.buckets[b].bucket.rows[i].cells[j]));
        assert(bucket_has_data(table.buckets[b].bucket));
    }
}

/// Law: purging removes exactly the tables in which no cell has an instance. The others stay as
/// they are and in the order that they are in.
pub proof fn law_tables_without_instances_are_purged(tables: Seq<TableSlot>, store_insert_ids: bool)
    requires
        tables_valid(tables, store_insert_ids),
    ensures
        purge_spec(tables).tables == tables.filter(|slot: TableSlot| has_instances(slot)),
    decreases tables.len(),
{
    reveal(Seq::filter);
    if tables.len() > 0 {
        let n = tables.len() - 1;
        assert(tables.drop_last() =~= tables.take(n));
        crate::gc::lemma_tables_prefix_valid(tables, store_insert_ids, n);
        crate::gc::lemma_table_of_valid(tables, store_insert_ids, n);
        law_tables_without_instances_are_purged(tables.drop_last(), store_insert_ids);
        lemma_has_instances(tables[n]);
    }
}

// --- What is told.

/// Whether it is told that a row was at some time.
pub open spec fn tells_time(
    diffs: Seq<DiffView>,
    row_id: RowId,
    timeline: (Seq<char>, TimeType),
    time: i64,
) -> bool {
    exists|d: int|
        0 <= d < diffs.len() && (#[trigger] diffs[d]).row_id == row_id && lists(
            diffs[d].times,
            timeline,
            time,
        )
}

/// Whether it is told that a row had a cell of a component.
pub open spec fn tells_component(
    diffs: Seq<DiffView>,
    row_id: RowId,
    component: Seq<char>,
) -> bool {
    exists|d: int|
        0 <= d < diffs.len() && (#[trigger] diffs[d]).row_id == row_id && has_component(
            diffs[d].cells,
            component,
        )
}

/// Whether one of the tables without instances has a row at some time.
pub open spec fn goes_at(
    tables: Seq<TableSlot>,
    row_id: RowId,
    timeline: (Seq<char>, TimeType),
    time: i64,
) -> bool {
    exists|t: int, row: BucketRow|
        0 <= t < tables.len() && #[trigger] holds_row(tables[t].table, row) && !has_instances(
            tables[t],
        ) && tables[t].table.timeline@ == timeline && row.row_id == row_id && row.time == time
}

/// Whether one of the tables without instances has a row with a cell of a component.
pub open spec fn goes_with(tables: Seq<TableSlot>, row_id: RowId, component: Seq<char>) -> bool {
    exists|t: int, row: BucketRow|
        0 <= t < tables.len() && #[trigger] holds_row(tables[t].table, row) && !has_instances(
            tables[t],
        ) && row.row_id == row_id && row_has_one_of(row, component)
}

/// Whether a row has a cell of a component.
pub open spec fn row_has_one_of(row: BucketRow, component: Seq<char>) -> bool {
    exists|j: int|
        0 <= j < row.cells.len() && (#[trigger] row.cells[j]) is Some
            && row.cells[j]->0.component_name@ == component
}

proof fn lemma_first_of(cells: Seq<DataCell>, component: Seq<char>)
    requires
        has_component(cells, component),
    ensures
        exists|i: int|
            0 <= i < cells.len() && (#[trigger] cells[i]).component_name@ == component && (
            forall|j: int| 0 <= j < i ==> (#[trigger] cells[j]).component_name@ != component),
    decreases cells.len(),
{
    let init = cells.drop_last();
    if has_component(init, component) {
        lemma_first_of(init, component);
        let i = choose|i: int|
            0 <= i < init.len() && (#[trigger] init[i]).component_name@ == component && (
            forall|j: int| 0 <= j < i ==> (#[trigger] init[j]).component_name@ != component);
        assert(cells[i].component_name@ == component);
        assert forall|j: int| 0 <= j < i implies (#[trigger] cells[j]).component_name@
            != component by {
            assert(init[j] == cells[j]);
        }
    } else {
        let n = cells.len() - 1;
        assert forall|j: int| 0 <= j < n implies (#[trigger] cells[j]).component_name@
            != component by {
            assert(init[j] == cells[j]);
        }
        assert(cells[n].component_name@ == component);
    }
}

proof fn lemma_put_cell_names(cells: Seq<DataCell>, cell: DataCell, component: Seq<char>)
    ensures
        has_component(put_cell(cells, cell), component) <==> has_component(cells, component)
            || cell.component_name@ == component,
{
    let after = put_cell(cells, cell);
    if has_component(cells, cell.component_name@) {
        lemma_first_of(cells, cell.component_name@);
        let i = choose|i: int|
            0 <= i < cells.len() && (#[trigger] cells[i]).component_name@ == cell.component_name@
                && (forall|j: int|
                0 <= j < i ==> (#[trigger] cells[j]).component_name@ != cell.component_name@);
        assert(after == cells.update(i, cell));
        assert forall|j: int| 0 <= j < cells.len() implies (#[trigger] after[j]).component_name@
            == cells[j].component_name@ by {}
        if has_component(cells, component) {
            let c = choose|c: int|
                0 <= c < cells.len() && (#[trigger] cells[c]).component_name@ == component;
            assert(after[c].component_name@ == component);
        }
        assert(after[i].component_name@ == cell.component_name@);
        if has_component(after, component) {
            let c = choose|c: int|
                0 <= c < after.len() && (#[trigger] after[c]).component_name@ == component;
            assert(cells[c].component_name@ == component);
        }
    } else {
        if has_component(cells, component) {
            let c = choose|c: int|
                0 <= c < cells.len() && (#[trigger] cells[c]).component_name@ == component;
            assert(after[c].component_name@ == component);
        }
        assert(after[cells.len() as int] == cell);
        if has_component(after, component) {
            let c = choose|c: int|
                0 <= c < after.len() && (#[trigger] after[c]).component_name@ == component;
            if c < cells.len() {
                assert(cells[c].component_name@ == component);
            }
        }
    }
}

proof fn lemma_put_cells_names(cells: Seq<DataCell>, more: Seq<DataCell>, component: Seq<char>)
    ensures
        has_component(put_cells(cells, more), component) <==> has_component(cells, component)
            || has_component(more, component),
    decreases more.len(),
{
    if more.len() > 0 {
        let init = more.drop_last();
        let last = more[more.len() - 1];
        lemma_put_cells_names(cells, init, component);
        lemma_put_cell_names(put_cells(cells, init), last, component);
        if has_component(init, component) {
            let c = choose|c: int|
                0 <= c < init.len() && (#[trigger] init[c]).component_name@ == component;
            assert(more[c].component_name@ == component);
        }
        if has_component(more, component) {
            let c = choose|c: int|
                0 <= c < more.len() && (#[trigger] more[c]).component_name@ == component;
            if c < init.len() {
                assert(init[c].component_name@ == component);
            }
        }
    }
}

/// Whether one difference tells that a row was at some time.
pub open spec fn one_tells_time(
    diff: DiffView,
    row_id: RowId,
    timeline: (Seq<char>, TimeType),
    time: i64,
) -> bool {
    diff.row_id == row_id && lists(diff.times, timeline, time)
}

/// Whether one difference tells that a row had a cell of a component.
pub open spec fn one_tells_component(diff: DiffView, row_id: RowId, component: Seq<char>) -> bool {
    diff.row_id == row_id && has_component(diff.cells, component)
}

proof fn lemma_put_purged_tells(
    diffs: Seq<DiffView>,
    row: DiffView,
    row_id: RowId,
    timeline: (Seq<char>, TimeType),
    time: i64,
    component: Seq<char>,
)
    ensures
        tells_time(put_purged(diffs, row), row_id, timeline, time) <==> tells_time(
            diffs,
            row_id,
            timeline,
            time,
        ) || one_tells_time(row, row_id, timeline, time),
        tells_component(put_purged(diffs, row), row_id, component) <==> tells_component(
            diffs,
            row_id,
            component,
        ) || one_tells_component(row, row_id, component),
{
    let after = put_purged(diffs, row);
    let at = diffs_below(diffs, row.row_id);
    lemma_diffs_below_bounds(diffs, row.row_id);
    if at < diffs.len() && diffs[at].row_id == row.row_id {
        lemma_lists_more(diffs[at].times, row.times);
        if lists(diffs[at].times + row.times, timeline, time) {
            lemma_lists_either(diffs[at].times, row.times, timeline, time);
        }
        lemma_put_cells_names(diffs[at].cells, row.cells, component);
        assert forall|d: int| 0 <= d < diffs.len() && d != at implies #[trigger] after[d]
            == diffs[d] by {}
        if tells_time(diffs, row_id, timeline, time) {
            let d = choose|d: int|
                0 <= d < diffs.len() && (#[trigger] diffs[d]).row_id == row_id && lists(
                    diffs[d].times,
                    timeline,
                    time,
                );
            assert(one_tells_time(after[d], row_id, timeline, time));
        }
        if one_tells_time(row, row_id, timeline, time) {
            assert(one_tells_time(after[at], row_id, timeline, time));
        }
        if tells_time(after, row_id, timeline, time) {
            let d = choose|d: int|
                0 <= d < after.len() && (#[trigger] after[d]).row_id == row_id && lists(
                    after[d].times,
                    timeline,
                    time,
                );
            assert(diffs[d].row_id == row_id);
        }
        if tells_component(diffs, row_id, component) {
            let d = choose|d: int|
                0 <= d < diffs.len() && (#[trigger] diffs[d]).row_id == row_id && has_component(
                    diffs[d].cells,
                    component,
                );
            assert(one_tells_component(after[d], row_id, component));
        }
        if one_tells_component(row, row_id, component) {
            assert(one_tells_component(after[at], row_id, component));
        }
        if tells_component(after, row_id, component) {
            let d = choose|d: int|
                0 <= d < after.len() && (#[trigger] after[d]).row_id == row_id && has_component(
                    after[d].cells,
                    component,
                );
            assert(diffs[d].row_id == row_id);
        }
    } else {
        assert(after[at] == row);
        if tells_time(diffs, row_id, timeline, time) {
            let d = choose|d: int|
                0 <= d < diffs.len() && (#[trigger] diffs[d]).row_id == row_id && lists(
                    diffs[d].times,
                    timeline,
                    time,
                );
            assert(after[if d < at {
                d
            } else {
                d + 1
            }] == diffs[d]);
        }
        if tells_time(after, row_id, timeline, time) {
            let d = choose|d: int|
                0 <= d < after.len() && (#[trigger] after[d]).row_id == row_id && lists(
                    after[d].times,
                    timeline,
                    time,
                );
            if d != at {
                assert(diffs[if d < at {
                    d
                } else {
                    d - 1
                }] == after[d]);
            }
        }
        if tells_component(diffs, row_id, component) {
            let d = choose|d: int|
                0 <= d < diffs.len() && (#[trigger] diffs[d]).row_id == row_id && has_component(
                    diffs[d].cells,
                    component,
                );
            assert(after[if d < at {
                d
            } else {
                d + 1
            }] == diffs[d]);
        }
        if tells_component(after, row_id, component) {
            let d = choose|d: int|
                0 <= d < after.len() && (#[trigger] after[d]).row_id == row_id && has_component(
                    after[d].cells,
                    component,
                );
            if d != at {
                assert(diffs[if d < at {
                    d
                } else {
                    d - 1
                }] == after[d]);
            }
        }
    }
}

proof fn lemma_lists_either(
    a: Seq<(Timeline, TimeInt)>,
    b: Seq<(Timeline, TimeInt)>,
    timeline: (Seq<char>, TimeType),
    time: i64,
)
    requires
        lists(a + b, timeline, time),
    ensures
        lists(a, timeline, time) || lists(b, timeline, time),
{
    let k = choose|k: int|
        0 <= k < (a + b).len() && (#[trigger] (a + b)[k]).0@ == timeline && (a + b)[k].1.value
            == time;
    if k < a.len() {
        assert(a[k] == (a + b)[k]);
    } else {
        assert(b[k - a.len()] == (a + b)[k]);
    }
}

proof fn lemma_put_all_purged_tells(
    diffs: Seq<DiffView>,
    rows: Seq<DiffView>,
    row_id: RowId,
    timeline: (Seq<char>, TimeType),
    time: i64,
    component: Seq<char>,
)
    ensures
        tells_time(put_all_purged(diffs, rows), row_id, timeline, time) <==> tells_time(
            diffs,
            row_id,
            timeline,
            time,
        ) || tells_time(rows, row_id, timeline, time),
        tells_component(put_all_purged(diffs, rows), row_id, component) <==> tells_component(
            diffs,
            row_id,
            component,
        ) || tells_component(rows, row_id, component),
    decreases rows.len(),
{
    if rows.len() > 0 {
        let init = rows.drop_last();
        let last = rows[rows.len() - 1];
        lemma_put_all_purged_tells(diffs, init, row_id, timeline, time, component);
        lemma_put_purged_tells(
            put_all_purged(diffs, init),
            last,
            row_id,
            timeline,
            time,
            component,
        );
        if tells_time(init, row_id, timeline, time) {
            let d = choose|d: int|
                0 <= d < init.len() && (#[trigger] init[d]).row_id == row_id && lists(
                    init[d].times,
                    timeline,
                    time,
                );
            assert(rows[d] == init[d]);
        }
        if tells_time(rows, row_id, timeline, time) {
            let d = choose|d: int|
                0 <= d < rows.len() && (#[trigger] rows[d]).row_id == row_id && lists(
                    rows[d].times,
                    timeline,
                    time,
                );
            if d < init.len() {
                assert(rows[d] == init[d]);
            }
        }
        if tells_component(init, row_id, component) {
            let d = choose|d: int|
                0 <= d < init.len() && (#[trigger] init[d]).row_id == row_id && has_component(
                    init[d].cells,
                    component,
                );
            assert(rows[d] == init[d]);
        }
        if tells_component(rows, row_id, component) {
            let d = choose|d: int|
                0 <= d < rows.len() && (#[trigger] rows[d]).row_id == row_id && has_component(
                    rows[d].cells,
                    component,
                );
            if d < init.len() {
                assert(rows[d] == init[d]);
            }
        }
    }
}

proof fn lemma_present_names(cells: Seq<Option<DataCell>>, row: BucketRow, component: Seq<char>)
    requires
        cells == row.cells,
    ensures
        has_component(present(cells), component) <==> row_has_one_of(row, component),
{
    lemma_present(cells);
    if has_component(present(cells), component) {
        let c = choose|c: int|
            0 <= c < present(cells).len() && (#[trigger] present(cells)[c]).component_name@
                == component;
        let cell = present(cells)[c];
        assert(present(cells).contains(cell));
        let j = choose|j: int| 0 <= j < cells.len() && cells[j] == Some(cell);
        assert(row.cells[j] is Some);
    }
    if row_has_one_of(row, component) {
        let j = choose|j: int|
            0 <= j < row.cells.len() && (#[trigger] row.cells[j]) is Some
                && row.cells[j]->0.component_name@ == component;
        let cell = row.cells[j]->0;
        assert(cells[j] == Some(cell));
        assert(cells.contains(Some(cell)));
        assert(present(cells).contains(cell));
        let c = choose|c: int| 0 <= c < present(cells).len() && present(cells)[c] == cell;
        assert(present(cells)[c].component_name@ == component);
    }
}

/// Law: of the rows of tables that are purged, all times are told at which those tables had them,
/// and all components that they had a cell of there. Nothing else is told.
pub proof fn law_purged_rows_are_told(
    tables: Seq<TableSlot>,
    store_insert_ids: bool,
    row_id: RowId,
    timeline: (Seq<char>, TimeType),
    time: i64,
    component: Seq<char>,
)
    requires
        tables_valid(tables, store_insert_ids),
    ensures
        tells_time(purge_spec(tables).diffs, row_id, timeline, time) <==> goes_at(
            tables,
            row_id,
            timeline,
            time,
        ),
        tells_component(purge_spec(tables).diffs, row_id, component) <==> goes_with(
            tables,
            row_id,
            component,
        ),
    decreases tables.len(),
{
    if tables.len() > 0 {
        let init = tables.drop_last();
        let n = init.len() as int;
        let slot = tables[n];
        let table = slot.table;
        assert(init =~= tables.take(n));
        crate::gc::lemma_tables_prefix_valid(tables, store_insert_ids, n);
        crate::gc::lemma_table_of_valid(tables, store_insert_ids, n);
        law_purged_rows_are_told(init, store_insert_ids, row_id, timeline, time, component);
        lemma_has_instances(slot);
        let rest = purge_spec(init).diffs;
        let all = purge_spec(tables).diffs;
        let rows = bucket_diffs(table.buckets, table.timeline, table.entity_path);
        if goes_at(init, row_id, timeline, time) {
            let (t, row) = choose|t: int, row: BucketRow|
                0 <= t < init.len() && #[trigger] holds_row(init[t].table, row)
                    && !has_instances(init[t]) && init[t].table.timeline@ == timeline
                    && row.row_id == row_id && row.time == time;
            assert(tables[t] == init[t]);
            assert(holds_row(tables[t].table, row));
        }
        if goes_with(init, row_id, component) {
            let (t, row) = choose|t: int, row: BucketRow|
                0 <= t < init.len() && #[trigger] holds_row(init[t].table, row)
                    && !has_instances(init[t]) && row.row_id == row_id && row_has_one_of(
                    row,
                    component,
                );
            assert(tables[t] == init[t]);
            assert(holds_row(tables[t].table, row));
        }
        if !has_instances(slot) {
            lemma_put_all_purged_tells(rest, rows, row_id, timeline, time, component);
            if tells_time(rows, row_id, timeline, time) {
                let d = choose|d: int|
                    0 <= d < rows.len() && (#[trigger] rows[d]).row_id == row_id && lists(
                        rows[d].times,
                        timeline,
                        time,
                    );
                let row = lemma_told_row(slot, d);
                assert(holds_row(tables[n].table, row));
            }
            if tells_component(rows, row_id, component) {
                let d = choose|d: int|
                    0 <= d < rows.len() && (#[trigger] rows[d]).row_id == row_id && has_component(
                        rows[d].cells,
                        component,
                    );
                let row = lemma_told_row(slot, d);
                lemma_present_names(row.cells, row, component);
                assert(holds_row(tables[n].table, row));
            }
        }
        if goes_at(tables, row_id, timeline, time) {
            let (t, row) = choose|t: int, row: BucketRow|
                0 <= t < tables.len() && #[trigger] holds_row(tables[t].table, row)
                    && !has_instances(tables[t]) && tables[t].table.timeline@ == timeline
                    && row.row_id == row_id && row.time == time;
            if t < n {
                assert(tables[t] == init[t]);
                assert(holds_row(init[t].table, row));
            } else {
                let d = lemma_row_told(slot, row);
                assert(rows[d].times[0].0@ == timeline && rows[d].times[0].1.value == time);
                assert(one_tells_time(rows[d], row_id, timeline, time));
            }
        }
        if goes_with(tables, row_id, component) {
            let (t, row) = choose|t: int, row: BucketRow|
                0 <= t < tables.len() && #[trigger] holds_row(tables[t].table, row)
                    && !has_instances(tables[t]) && row.row_id == row_id && row_has_one_of(
                    row,
                    component,
                );
            if t < n {
                assert(tables[t] == init[t]);
                assert(holds_row(init[t].table, row));
            } else {
                let d = lemma_row_told(slot, row);
                lemma_present_names(row.cells, row, component);
                assert(one_tells_component(rows[d], row_id, component));
            }
        }
    }
}

/// The row that one of the differences of a table is about.
proof fn lemma_told_row(slot: TableSlot, d: int) -> (row: BucketRow)
    requires
        slot.table.valid(),
        0 <= d < bucket_diffs(
            slot.table.buckets,
            slot.table.timeline,
            slot.table.entity_path,
        ).len(),
    ensures
        ({
            let diff = bucket_diffs(
                slot.table.buckets,
                slot.table.timeline,
                slot.table.entity_path,
            )[d];
            &&& holds_row(slot.table, row)
            &&& diff.row_id == row.row_id
            &&& diff.cells == present(row.cells)
            &&& forall|timeline: (Seq<char>, TimeType), time: i64| #[trigger]
                lists(diff.times, timeline, time) ==> timeline == slot.table.timeline@ && time
                    == row.time
        }),
{
    reveal(TableView::valid);
    let table = slot.table;
    let (b, i) = lemma_bucket_diffs_are(table.buckets, table.timeline, table.entity_path, d);
    let row = table.buckets[b].bucket.rows[i];
    assert(table.buckets[b].bucket.rows[i] == row);
    assert(table.buckets[b].bucket.valid());
    row
}

/// The difference of a table that is about one of its rows.
proof fn lemma_row_told(slot: TableSlot, row: BucketRow) -> (d: int)
    requires
        slot.table.valid(),
        holds_row(slot.table, row),
    ensures
        ({
            let rows = bucket_diffs(
                slot.table.buckets,
                slot.table.timeline,
                slot.table.entity_path,
            );
            &&& 0 <= d < rows.len()
            &&& rows[d].row_id == row.row_id
            &&& rows[d].cells == present(row.cells)
            &&& rows[d].times.len() == 1
            &&& rows[d].times[0].0@ == slot.table.timeline@
            &&& rows[d].times[0].1.value == row.time
        }),
{
    reveal(TableView::valid);
    let table = slot.table;
    let (b, i) = choose|b: int, i: int|
        0 <= b < table.buckets.len() && 0 <= i < table.buckets[b].bucket.rows.len()
            && #[trigger] table.buckets[b].bucket.rows[i] == row;
    assert(table.buckets[b].bucket.valid());
    lemma_bucket_diffs_have(table.buckets, table.timeline, table.entity_path, b, i)
}

} // verus!
